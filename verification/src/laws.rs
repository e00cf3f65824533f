//! What holds of the codecs as a whole: a written message or document reads
//! back as what was written.

use crate::backlinks::{cited_document, cited_in_document, cited_message, with_backlink};
use crate::collection::{resolve_reference, resolve_references};
use crate::document::{
    after_title, expected_after, find_terminator_from, format_document, format_header,
    format_messages, identifier_of, ids_increase, is_terminator_at, lemma_find_terminator_from,
    lemma_find_terminator_is, lemma_parse_messages_last, lemma_parse_messages_step,
    parse_document, parse_header, parse_identifier, parse_messages, parse_title, place,
    unsaved_file, HeaderView, OodleView,
};
use crate::error::ParseError;
use crate::lines::{
    after_first_line, double_period, escape_line, first_line, format_body, has_line,
    lone_period, rewrite_line, rewrite_lines, unescape_body, unescape_line,
    without_final_newline,
};
use crate::message::{format_message, new_message, parse_message, MessageView};
use crate::reference::{format_reference, parse_reference, BacklinkView, ReferenceView};
use crate::text::{
    decimal, find_char, is_trimmed, is_whitespace, lacks, lemma_decimal, lemma_find_char_from,
    lemma_find_char_is, lemma_parse_decimal, lemma_trim_is, trim,
};
use crate::timestamp::{
    days_before_month, days_before_year, days_in_month, format_dateline, is_leap_year,
    lemma_dateline_round_trip, lemma_digit_chars_plain,
};
use vstd::prelude::*;

verus! {

/// No line of `s` ends in a carriage return: none stands before a newline
/// or at the end of `s`.
pub open spec fn plain_newlines(s: Seq<char>) -> bool {
    &&& s.len() > 0 ==> s.last() != '\r'
    &&& forall|i: int| 0 < i < s.len() && #[trigger] s[i] == '\n' ==> s[i - 1] != '\r'
}

/// A content that a written message gives back as it was: none of its
/// lines ends in a carriage return, none of its lines is `..`, and it does
/// not end in a newline.
pub open spec fn survives_writing(content: Seq<char>) -> bool {
    &&& plain_newlines(content)
    &&& !has_line(content, double_period())
    &&& content.len() > 0 ==> content.last() != '\n'
}

/// A content that a written document gives back as it was: one that
/// survives the writing of its message and does not end in whitespace, which
/// goes with the whitespace around the message.
pub open spec fn survives_in_document(content: Seq<char>) -> bool {
    &&& survives_writing(content)
    &&& content.len() > 0 ==> !is_whitespace(content.last())
}

/// A text with a newline at its end, added where it has none; the empty
/// text stays empty.
pub open spec fn newline_ended(s: Seq<char>) -> Seq<char> {
    if s.len() == 0 || s.last() == '\n' {
        s
    } else {
        s + seq!['\n']
    }
}

/// The lone-period rule: the line `.` is escaped and comes back as `.`;
/// every other line is escaped to itself, and comes back as itself unless
/// it is `..`.
pub proof fn law_lone_period_escape(line: Seq<char>)
    ensures
        unescape_line(escape_line(lone_period())) == lone_period(),
        line != lone_period() ==> escape_line(line) == line,
        line != double_period() ==> unescape_line(escape_line(line)) == line,
        escape_line(line) != lone_period(),
{
    assert(lone_period().len() == 1);
    assert(double_period().len() == 2);
    assert(lone_period() != double_period());
}

/// A line without newline that does not end in a carriage return, followed
/// by a newline, is the first line of what it starts.
pub proof fn lemma_first_line_of_join(x: Seq<char>, y: Seq<char>)
    requires
        lacks(x, '\n'),
        x.len() > 0 ==> x.last() != '\r',
    ensures
        find_char(x + seq!['\n'] + y, '\n') == x.len(),
        first_line(x + seq!['\n'] + y) == x,
        after_first_line(x + seq!['\n'] + y) == y,
{
    let s = x + seq!['\n'] + y;
    assert forall|j: int| 0 <= j < x.len() implies s[j] != '\n' by {
        assert(s[j] == x[j]);
    }
    assert(s[x.len() as int] == '\n');
    lemma_find_char_is(s, '\n', 0, x.len() as int);
    if x.len() > 0 {
        assert(s[x.len() - 1] == x.last());
    }
    assert(s.subrange(0, x.len() as int) =~= x);
    assert(s.subrange(x.len() as int + 1, s.len() as int) =~= y);
}

/// The first line of a text holds no newline.
pub proof fn lemma_first_line_plain(s: Seq<char>)
    ensures
        lacks(first_line(s), '\n'),
        first_line(s).len() <= s.len(),
{
    lemma_find_char_from(s, '\n', 0);
}

/// A rewritten line holds no newline when the line holds none.
pub proof fn lemma_rewrite_line_plain(line: Seq<char>, escaping: bool)
    requires
        lacks(line, '\n'),
    ensures
        lacks(rewrite_line(line, escaping), '\n'),
{
    assert(lone_period().len() == 1 && lone_period()[0] == '.');
    assert(double_period().len() == 2 && double_period()[0] == '.' && double_period()[1] == '.');
}

/// Rewritten lines end in a newline, and are empty only for the empty text.
pub proof fn lemma_rewritten_ends_in_newline(s: Seq<char>, escaping: bool)
    ensures
        rewrite_lines(s, escaping).len() == 0 <==> s.len() == 0,
        s.len() > 0 ==> rewrite_lines(s, escaping).last() == '\n',
    decreases s.len(),
{
    if s.len() > 0 {
        let rest = after_first_line(s);
        lemma_find_char_from(s, '\n', 0);
        lemma_rewritten_ends_in_newline(rest, escaping);
        let head = rewrite_line(first_line(s), escaping) + seq!['\n'];
        let tail = rewrite_lines(rest, escaping);
        assert(rewrite_lines(s, escaping) == head + tail);
        if tail.len() > 0 {
            assert((head + tail).last() == tail.last());
        } else {
            assert(head + tail =~= head);
        }
    }
}

/// What holds of the rest of a text whose lines end in no carriage return.
proof fn lemma_rest_survives(c: Seq<char>)
    requires
        c.len() > 0,
        plain_newlines(c),
        !has_line(c, double_period()),
    ensures
        first_line(c) == c.subrange(0, find_char(c, '\n')),
        first_line(c) != double_period(),
        lacks(first_line(c), '\n'),
        first_line(c).len() > 0 ==> first_line(c).last() != '\r',
        plain_newlines(after_first_line(c)),
        !has_line(after_first_line(c), double_period()),
        after_first_line(c).len() < c.len(),
        after_first_line(c).len() > 0 ==> after_first_line(c).last() == c.last(),
        c == (if find_char(c, '\n') < c.len() {
            first_line(c) + seq!['\n'] + after_first_line(c)
        } else {
            first_line(c)
        }),
{
    let e = find_char(c, '\n');
    lemma_find_char_from(c, '\n', 0);
    let rest = after_first_line(c);
    if 0 < e < c.len() {
        assert(c[e] == '\n');
        assert(c[e - 1] != '\r');
    }
    let line = first_line(c);
    if line.len() > 0 {
        assert(line.last() == c[e - 1]);
    }
    if rest.len() > 0 {
        assert(rest.last() == c.last());
    }
    assert forall|i: int| 0 < i < rest.len() && #[trigger] rest[i] == '\n' implies rest[i - 1]
        != '\r' by {
        assert(rest[i] == c[e + 1 + i]);
        assert(rest[i - 1] == c[e + 1 + i - 1]);
    }
    if e < c.len() {
        assert(c =~= line + seq!['\n'] + rest);
    } else {
        assert(c =~= line);
    }
}

/// Escaping and then unescaping the lines of a content gives the content
/// back, newline-ended, when none of its lines ends in a carriage return or
/// is `..`.
pub proof fn lemma_unescape_escaped(c: Seq<char>)
    requires
        plain_newlines(c),
        !has_line(c, double_period()),
    ensures
        unescape_body(format_body(c)) == newline_ended(c),
    decreases c.len(),
{
    if c.len() > 0 {
        lemma_rest_survives(c);
        let line = first_line(c);
        let rest = after_first_line(c);
        let written = escape_line(line);
        law_lone_period_escape(line);
        lemma_rewrite_line_plain(line, true);
        assert(written.len() > 0 ==> written.last() != '\r') by {
            if line == lone_period() {
                assert(double_period().last() == '.');
            }
        }
        lemma_first_line_of_join(written, format_body(rest));
        lemma_unescape_escaped(rest);
        let text = format_body(c);
        assert(text == written + seq!['\n'] + format_body(rest));
        assert(text.len() > 0);
        assert(unescape_body(text) == line + seq!['\n'] + newline_ended(rest));
        if find_char(c, '\n') < c.len() {
            if rest.len() == 0 {
                assert(c =~= line + seq!['\n']);
                assert(line + seq!['\n'] + newline_ended(rest) =~= c);
            } else if rest.last() == '\n' {
                assert(c.last() == '\n');
            } else {
                assert(line + seq!['\n'] + (rest + seq!['\n']) =~= (line + seq!['\n'] + rest)
                    + seq!['\n']);
            }
        } else {
            lemma_find_char_from(c, '\n', 0);
            assert(c.last() != '\n');
            assert(line + seq!['\n'] + newline_ended(rest) =~= c + seq!['\n']);
        }
    }
}

/// The added newline is the final newline.
pub proof fn lemma_without_added_newline(c: Seq<char>)
    requires
        c.len() > 0 ==> c.last() != '\n',
    ensures
        without_final_newline(newline_ended(c)) == c,
{
    if c.len() > 0 {
        let s = c + seq!['\n'];
        assert(newline_ended(c) == s);
        assert(s.last() == '\n');
        assert(s.drop_last() =~= c);
    }
}

/// A written body reads back as the content it was written from.
pub proof fn lemma_body_round_trip(c: Seq<char>)
    requires
        survives_writing(c),
    ensures
        without_final_newline(unescape_body(format_body(c))) == c,
{
    lemma_unescape_escaped(c);
    lemma_without_added_newline(c);
}

/// A written message reads back with the date and the content it was
/// written from, and with its id where the index was shown, `0` where not.
pub proof fn lemma_message_round_trip(m: MessageView, print_index: bool)
    requires
        m.date.wf(),
        survives_writing(m.content),
    ensures
        parse_message(format_message(m, print_index)) == Ok::<
            MessageView,
            crate::error::ParseError,
        >(
            new_message(
                if print_index {
                    m.id
                } else {
                    0
                },
                m.date,
                m.content,
            ),
        ),
{
    let index = if print_index {
        Some(m.id)
    } else {
        None
    };
    let dateline = format_dateline(m.date, index);
    lemma_dateline_round_trip(m.date, index);
    assert(is_whitespace('\r'));
    lemma_first_line_of_join(dateline, format_body(m.content));
    lemma_body_round_trip(m.content);
    let text = format_message(m, print_index);
    assert(text == dateline + seq!['\n'] + format_body(m.content));
    assert(text.len() > 0);
}

/// A message reads back from its written form as it was: for every message
/// whose citations are those of its content, that nobody has cited, and
/// whose content has no line that ends in a carriage return, no line `..`
/// and no newline at its end, provided that its index is shown unless its
/// id is `0`. White space at either end of the content stays.
pub proof fn law_message_round_trip(m: MessageView, print_index: bool)
    requires
        m.date.wf(),
        survives_writing(m.content),
        m == new_message(m.id, m.date, m.content),
        print_index || m.id == 0,
    ensures
        parse_message(format_message(m, print_index)) == Ok::<
            MessageView,
            crate::error::ParseError,
        >(m),
{
    lemma_message_round_trip(m, print_index);
}

/// A final newline after a line that ends in neither newline nor carriage
/// return makes no difference to the lines.
pub proof fn lemma_final_newline(t: Seq<char>, escaping: bool)
    requires
        t.len() > 0,
        t.last() != '\n',
        t.last() != '\r',
    ensures
        rewrite_lines(t + seq!['\n'], escaping) == rewrite_lines(t, escaping),
    decreases t.len(),
{
    let u = t + seq!['\n'];
    let e = find_char(t, '\n');
    lemma_find_char_from(t, '\n', 0);
    assert forall|j: int| 0 <= j < e implies u[j] != '\n' by {
        assert(u[j] == t[j]);
    }
    if e < t.len() {
        assert(u[e] == t[e]);
    } else {
        assert(u[e] == '\n');
    }
    lemma_find_char_is(u, '\n', 0, e);
    if 0 < e {
        assert(u[e - 1] == t[e - 1]);
    }
    if e < t.len() {
        let rest = after_first_line(t);
        assert(rest.len() > 0) by {
            if e == t.len() - 1 {
                assert(t.last() == t[e]);
            }
        }
        assert(rest.last() == t.last());
        assert(after_first_line(u) =~= rest + seq!['\n']);
        assert(first_line(u) =~= first_line(t));
        lemma_final_newline(rest, escaping);
    } else {
        assert(first_line(u) =~= t);
        assert(first_line(t) =~= t);
        assert(after_first_line(u) =~= Seq::<char>::empty());
        assert(after_first_line(t) =~= Seq::<char>::empty());
    }
}

/// A written body ends with the last character of the content and a newline.
pub proof fn lemma_escaped_tail(c: Seq<char>)
    requires
        c.len() > 0,
        c.last() != '\n',
    ensures
        format_body(c).len() >= 2,
        format_body(c).last() == '\n',
        format_body(c)[format_body(c).len() - 2] == c.last(),
    decreases c.len(),
{
    let e = find_char(c, '\n');
    lemma_find_char_from(c, '\n', 0);
    let line = first_line(c);
    let rest = after_first_line(c);
    let written = escape_line(line);
    let body = format_body(c);
    assert(body == written + seq!['\n'] + format_body(rest));
    if e < c.len() {
        assert(rest.len() > 0) by {
            if e == c.len() - 1 {
                assert(c.last() == c[e]);
            }
        }
        assert(rest.last() == c.last());
        lemma_escaped_tail(rest);
        let tail = format_body(rest);
        assert(body.last() == tail.last());
        assert(body[body.len() - 2] == tail[tail.len() - 2]);
    } else {
        assert(line =~= c);
        assert(rest.len() == 0);
        assert(body =~= written + seq!['\n']);
        assert(double_period().len() == 2 && double_period()[1] == '.');
        assert(lone_period().len() == 1 && lone_period()[0] == '.');
        if line == lone_period() {
            assert(c.last() == '.');
        }
        assert(written.len() > 0 && written.last() == c.last());
        assert(body[body.len() - 2] == written.last());
    }
}

/// `b` holds no line that is exactly `.`: it does not start with one, and
/// none follows a newline.
pub open spec fn lacks_lone_period(b: Seq<char>) -> bool {
    &&& !(b.len() >= 2 && b[0] == '.' && b[1] == '\n')
    &&& forall|j: int| !is_terminator_at(b, j)
}

/// A written body holds no line that is exactly `.`.
pub proof fn lemma_body_lacks_lone_period(c: Seq<char>)
    ensures
        lacks_lone_period(format_body(c)),
    decreases c.len(),
{
    let b = format_body(c);
    if c.len() > 0 {
        lemma_find_char_from(c, '\n', 0);
        let line = first_line(c);
        let rest = after_first_line(c);
        let x = escape_line(line);
        let tail = format_body(rest);
        lemma_first_line_plain(c);
        lemma_rewrite_line_plain(line, true);
        law_lone_period_escape(line);
        lemma_body_lacks_lone_period(rest);
        assert(b == x + seq!['\n'] + tail);
        let n = x.len() as int;
        assert(b[n] == '\n');
        assert forall|j: int| 0 <= j < n implies b[j] == x[j] by {}
        assert forall|j: int| 0 <= j < tail.len() implies b[n + 1 + j] == tail[j] by {}
        if b.len() >= 2 && b[0] == '.' && b[1] == '\n' {
            if n == 1 {
                assert(x =~= lone_period());
            } else if n >= 2 {
                assert(x[1] == '\n');
            }
            assert(false);
        }
        assert forall|j: int| !is_terminator_at(b, j) by {
            if is_terminator_at(b, j) {
                if j < n {
                    assert(x[j] == '\n');
                } else if j == n {
                    assert(tail[0] == '.' && tail[1] == '\n');
                } else {
                    assert(tail[j - n - 1] == b[j]);
                    assert(tail[j - n - 1 + 1] == b[j + 1]);
                    assert(tail[j - n - 1 + 2] == b[j + 2]);
                    assert(is_terminator_at(tail, j - n - 1));
                }
                assert(false);
            }
        }
    } else {
        assert(b.len() == 0);
    }
}

/// A line without newline that does not start with a period, a newline
/// and a body without lone period hold no lone period together, whether or
/// not a newline stands before them.
proof fn lemma_joined_lacks_terminator(d: Seq<char>, body: Seq<char>, lead: bool)
    requires
        d.len() > 0,
        lacks(d, '\n'),
        d[0] != '.',
        lacks_lone_period(body),
    ensures
        forall|j: int| !is_terminator_at(led(lead) + (d + seq!['\n'] + body), j),
{
    let w = led(lead) + (d + seq!['\n'] + body);
    let p = led(lead).len() as int;
    let n = d.len() as int;
    assert forall|j: int| 0 <= j < n implies w[p + j] == d[j] by {}
    assert(w[p + n] == '\n');
    assert forall|j: int| 0 <= j < body.len() implies w[p + n + 1 + j] == body[j] by {}
    assert forall|j: int| !is_terminator_at(w, j) by {
        if is_terminator_at(w, j) {
            if j < p {
                assert(w[j + 1] == d[0]);
            } else if j < p + n {
                assert(w[j] == d[j - p]);
            } else if j == p + n {
                assert(body[0] == w[j + 1] && body[1] == w[j + 2]);
            } else {
                let i = j - p - n - 1;
                assert(body[i] == w[j] && body[i + 1] == w[j + 1] && body[i + 2] == w[j + 2]);
                assert(is_terminator_at(body, i));
            }
            assert(false);
        }
    }
}

/// A written message, with or without a newline before it, holds no line
/// that is exactly `.`.
proof fn lemma_message_lacks_terminator(m: MessageView, print_index: bool, lead: bool)
    requires
        m.date.wf(),
    ensures
        forall|j: int| !is_terminator_at(led(lead) + format_message(m, print_index), j),
        format_message(m, print_index).len() >= 25,
        format_message(m, print_index).last() == '\n',
{
    let index = if print_index {
        Some(m.id)
    } else {
        None
    };
    let d = format_dateline(m.date, index);
    let body = format_body(m.content);
    lemma_dateline_round_trip(m.date, index);
    lemma_digit_chars_plain();
    lemma_body_lacks_lone_period(m.content);
    lemma_rewritten_ends_in_newline(m.content, true);
    lemma_joined_lacks_terminator(d, body, lead);
    let f = format_message(m, print_index);
    assert(f == d + seq!['\n'] + body);
    if body.len() > 0 {
        assert(f.last() == body.last());
    } else {
        assert(f =~= d + seq!['\n']);
    }
}

/// The newline that stands before a written message, or nothing.
pub open spec fn led(lead: bool) -> Seq<char> {
    if lead {
        seq!['\n']
    } else {
        Seq::empty()
    }
}

/// The first terminator of a text that starts with a written message is
/// the one that ends that message.
proof fn lemma_first_terminator(m: MessageView, print_index: bool, lead: bool, tail: Seq<char>)
    requires
        m.date.wf(),
    ensures
        ({
            let w = led(lead) + format_message(m, print_index);
            let s = w + seq!['.', '\n'] + tail;
            &&& find_terminator_from(s, 0) == w.len() - 1
            &&& s.subrange(0, w.len() - 1) == w.drop_last()
            &&& s.subrange(w.len() as int + 2, s.len() as int) == tail
        }),
{
    let w = led(lead) + format_message(m, print_index);
    let s = w + seq!['.', '\n'] + tail;
    lemma_message_lacks_terminator(m, print_index, lead);
    let k = w.len() - 1;
    assert(w.last() == format_message(m, print_index).last());
    assert(s[k] == w[k]);
    assert(s[k + 1] == '.');
    assert(s[k + 2] == '\n');
    assert(is_terminator_at(s, k));
    assert forall|j: int| 0 <= j < k implies !is_terminator_at(s, j) by {
        if is_terminator_at(s, j) {
            if j + 2 < w.len() {
                assert(s[j] == w[j] && s[j + 1] == w[j + 1] && s[j + 2] == w[j + 2]);
                assert(is_terminator_at(w, j));
            } else {
                assert(j + 2 == k + 1);
            }
            assert(false);
        }
    }
    lemma_find_terminator_is(s, 0, k);
    assert(s.subrange(0, k) =~= w.drop_last());
    assert(s.subrange(w.len() as int + 2, s.len() as int) =~= tail);
}

/// Trimming what stands before the terminator of a written message leaves
/// the dateline and the body without its last newline.
proof fn lemma_trimmed_segment(d: Seq<char>, body: Seq<char>, lead: bool)
    requires
        d.len() > 0,
        !is_whitespace(d[0]),
        !is_whitespace(d.last()),
        body.len() > 0 ==> body.len() >= 2 && body.last() == '\n' && !is_whitespace(
            body[body.len() - 2],
        ),
    ensures
        trim((led(lead) + (d + seq!['\n'] + body)).drop_last()) == (if body.len() == 0 {
            d
        } else {
            d + seq!['\n'] + body.drop_last()
        }),
{
    assert(is_whitespace('\n'));
    let x = (led(lead) + (d + seq!['\n'] + body)).drop_last();
    let p = led(lead).len() as int;
    assert forall|j: int| 0 <= j < p implies is_whitespace(x[j]) by {}
    assert(x[p] == d[0]);
    if body.len() == 0 {
        assert(x =~= led(lead) + d);
        assert(x.last() == d.last());
        lemma_trim_is(x, p, x.len() as int);
        assert(x.subrange(p, x.len() as int) =~= d);
    } else {
        let shorter = body.drop_last();
        let seg = d + seq!['\n'] + shorter;
        assert(x =~= led(lead) + seg);
        assert(shorter.last() == body[body.len() - 2]);
        assert(x.last() == shorter.last());
        lemma_trim_is(x, p, x.len() as int);
        assert(x.subrange(p, x.len() as int) =~= seg);
    }
}

/// A dateline alone reads as a message without content.
proof fn lemma_parse_bare_dateline(d: Seq<char>)
    requires
        d.len() > 0,
        lacks(d, '\n'),
    ensures
        first_line(d) == d,
        without_final_newline(unescape_body(after_first_line(d))) == Seq::<char>::empty(),
{
    crate::text::lemma_find_char_is(d, '\n', 0, d.len() as int);
    assert(first_line(d) =~= d);
    assert(after_first_line(d) =~= Seq::<char>::empty());
    assert(unescape_body(Seq::<char>::empty()) =~= Seq::<char>::empty());
}

/// A dateline and a written body without its last newline read as the
/// dateline and the content.
proof fn lemma_parse_shortened(d: Seq<char>, c: Seq<char>)
    requires
        lacks(d, '\n'),
        d.len() > 0,
        d.last() != '\r',
        c.len() > 0,
        survives_in_document(c),
    ensures
        format_body(c).len() >= 2,
        first_line(d + seq!['\n'] + format_body(c).drop_last()) == d,
        without_final_newline(
            unescape_body(after_first_line(d + seq!['\n'] + format_body(c).drop_last())),
        ) == c,
{
    assert(is_whitespace('\n') && is_whitespace('\r'));
    lemma_escaped_tail(c);
    let body = format_body(c);
    let shorter = body.drop_last();
    assert(shorter.last() == c.last());
    assert(body =~= shorter + seq!['\n']);
    lemma_first_line_of_join(d, shorter);
    lemma_final_newline(shorter, false);
    lemma_body_round_trip(c);
}

/// What stands before the terminator of a written message reads as the
/// message.
proof fn lemma_segment_round_trip(m: MessageView, print_index: bool, lead: bool)
    requires
        m.date.wf(),
        survives_in_document(m.content),
    ensures
        parse_message(trim((led(lead) + format_message(m, print_index)).drop_last())) == Ok::<
            MessageView,
            ParseError,
        >(
            new_message(
                if print_index {
                    m.id
                } else {
                    0
                },
                m.date,
                m.content,
            ),
        ),
{
    let index = if print_index {
        Some(m.id)
    } else {
        None
    };
    let d = format_dateline(m.date, index);
    let c = m.content;
    let body = format_body(c);
    lemma_dateline_round_trip(m.date, index);
    lemma_digit_chars_plain();
    lemma_rewritten_ends_in_newline(c, true);
    assert(is_whitespace('\r'));
    if c.len() > 0 {
        lemma_escaped_tail(c);
        lemma_parse_shortened(d, c);
    } else {
        lemma_parse_bare_dateline(d);
    }
    lemma_trimmed_segment(d, body, lead);
    let seg = trim((led(lead) + format_message(m, print_index)).drop_last());
    assert(seg.len() > 0);
    assert(first_line(seg) == d);
    assert(without_final_newline(unescape_body(after_first_line(seg))) == c);
}

/// The id under which a written message is stored when it is read back is
/// the id it was written with.
proof fn lemma_placed_as_written(m: MessageView, last: Option<usize>)
    requires
        follows(last, seq![m]),
    ensures
        expected_after(last) <= usize::MAX,
        place(
            new_message(
                if m.id != expected_after(last) {
                    m.id
                } else {
                    0
                },
                m.date,
                m.content,
            ),
            last,
        ) == as_read(m),
{
    assert(seq![m][0] == m);
}

/// A message as it is read back: with the citations of its content and no
/// backlinks.
pub open spec fn as_read(m: MessageView) -> MessageView {
    new_message(m.id, m.date, m.content)
}

/// The messages as they are read back.
pub open spec fn all_as_read(messages: Seq<MessageView>) -> Seq<MessageView> {
    Seq::new(messages.len(), |i: int| as_read(messages[i]))
}

/// Every message has a date that a dateline can carry and a content that
/// a written document gives back as it was.
pub open spec fn all_survive_writing(messages: Seq<MessageView>) -> bool {
    forall|i: int|
        0 <= i < messages.len() ==> (#[trigger] messages[i]).date.wf() && survives_in_document(
            messages[i].content,
        )
}

/// The first of the messages has an id above `last`.
pub open spec fn follows(last: Option<usize>, messages: Seq<MessageView>) -> bool {
    match last {
        None => true,
        Some(id) => messages.len() > 0 ==> id < messages[0].id,
    }
}

/// The written messages as the reader meets them: with the first newline
/// when `lead`, without it otherwise.
pub open spec fn written_messages(messages: Seq<MessageView>, last: Option<usize>, lead: bool)
    -> Seq<char> {
    let g = format_messages(messages, expected_after(last));
    if lead || g.len() == 0 {
        g
    } else {
        g.subrange(1, g.len() as int)
    }
}

/// Written messages read back as they were.
pub proof fn lemma_messages_round_trip(
    messages: Seq<MessageView>,
    last: Option<usize>,
    lead: bool,
)
    requires
        all_survive_writing(messages),
        ids_increase(messages),
        follows(last, messages),
    ensures
        parse_messages(written_messages(messages, last, lead), last) == Ok::<
            Seq<MessageView>,
            ParseError,
        >(all_as_read(messages)),
    decreases messages.len(),
{
    let expected = expected_after(last);
    let g = format_messages(messages, expected);
    let s = written_messages(messages, last, lead);
    if messages.len() == 0 {
        assert(s =~= Seq::<char>::empty());
        lemma_parse_messages_last(s, last);
        lemma_trim_is(s, 0, 0);
        assert(all_as_read(messages) =~= Seq::<MessageView>::empty());
    } else {
        let m = messages[0];
        let print_index = m.id != expected;
        let f = format_message(m, print_index);
        let rest = messages.drop_first();
        let tail = format_messages(rest, m.id + 1);
        assert(g == seq!['\n'] + f + seq!['.', '\n'] + tail);
        let w = led(lead) + f;
        assert(s =~= w + seq!['.', '\n'] + tail);
        lemma_first_terminator(m, print_index, lead, tail);
        lemma_segment_round_trip(m, print_index, lead);
        let k = w.len() - 1;
        let read = new_message(
            if print_index {
                m.id
            } else {
                0
            },
            m.date,
            m.content,
        );
        assert(follows(last, seq![m])) by {
            assert(seq![m][0] == m);
        }
        lemma_placed_as_written(m, last);
        lemma_parse_messages_step(s, last, k);
        assert forall|i: int| 0 <= i < rest.len() implies (#[trigger] rest[i]).date.wf()
            && survives_in_document(rest[i].content) by {
            assert(rest[i] == messages[i + 1]);
        }
        assert forall|i: int, j: int| 0 <= i < j < rest.len() implies rest[i].id
            < rest[j].id by {
            assert(rest[i] == messages[i + 1] && rest[j] == messages[j + 1]);
        }
        if rest.len() > 0 {
            assert(rest[0] == messages[1]);
        }
        lemma_messages_round_trip(rest, Some(m.id), true);
        assert(written_messages(rest, Some(m.id), true) == tail);
        assert(seq![as_read(m)] + all_as_read(rest) =~= all_as_read(messages));
    }
}

/// A written header reads back as the title and identifier it was written
/// from, and leaves what follows it as the body.
pub proof fn lemma_header_round_trip(name: Seq<char>, id: Seq<char>, g: Seq<char>)
    requires
        is_trimmed(name),
        lacks(name, '\n'),
        lacks(id, '\n'),
    ensures
        parse_header(format_header(name, id) + g) == Ok::<HeaderView, ParseError>(
            HeaderView {
                name,
                id: Some(id),
                body: if g.len() > 0 && g[0] == '\n' {
                    g.subrange(1, g.len() as int)
                } else {
                    g
                },
            },
        ),
{
    let s = format_header(name, id) + g;
    let title = seq!['-', '=', ' '] + name + seq![' ', '=', '-'];
    let ident = seq!['['] + id + seq![']'];
    let rest = ident + seq!['\n'] + g;
    assert(s =~= title + seq!['\n'] + rest);
    assert forall|j: int| 0 <= j < title.len() implies title[j] != '\n' by {
        if 3 <= j < 3 + name.len() {
            assert(title[j] == name[j - 3]);
        }
    }
    assert forall|j: int| 0 <= j < ident.len() implies ident[j] != '\n' by {
        if 1 <= j < 1 + id.len() {
            assert(ident[j] == id[j - 1]);
        }
    }
    lemma_first_line_of_join(title, rest);
    lemma_first_line_of_join(ident, g);
    let i = find_char(s, '\n');
    assert(i == title.len());
    assert(s.subrange(0, i) =~= title);
    assert(after_title(s) =~= rest);
    let inner = title.subrange(2, title.len() - 2);
    assert(inner =~= seq![' '] + name + seq![' ']);
    assert(is_whitespace(' '));
    if name.len() > 0 {
        assert(inner[1] == name[0]);
        assert(inner[name.len() as int] == name.last());
    }
    lemma_trim_is(inner, 1, 1 + name.len() as int);
    assert(inner.subrange(1, 1 + name.len() as int) =~= name);
    assert(parse_title(title) == Some(name));
    let j = find_char(rest, '\n');
    assert(j == ident.len());
    assert(rest.subrange(0, j) =~= ident);
    assert(ident.subrange(1, ident.len() - 1) =~= id);
    assert(parse_identifier(ident) == Some(id));
    assert(identifier_of(rest) == Some(id));
    assert(rest.subrange(j + 1, rest.len() as int) =~= g);
}

/// The document as it is read back: with the storage key of a document not
/// stored yet, no backlinks, and each message as read.
pub open spec fn document_as_read(d: OodleView) -> OodleView {
    OodleView {
        id: d.id,
        name: d.name,
        file: unsaved_file(),
        messages: all_as_read(d.messages),
        backlinks: Seq::empty(),
    }
}

/// A document reads back from its written form with its identifier, its
/// title and the id, date and content of every message: for every document
/// whose title is one trimmed line, whose identifier is one line, whose
/// message ids rise, and whose contents have no line that ends in a carriage
/// return, no line `..` and no whitespace at their end. White space at the
/// start of a content stays. The storage key and the backlinks are not part
/// of the written form.
pub proof fn law_document_round_trip(d: OodleView, fallback_id: Seq<char>)
    requires
        is_trimmed(d.name),
        lacks(d.name, '\n'),
        lacks(d.id, '\n'),
        ids_increase(d.messages),
        all_survive_writing(d.messages),
    ensures
        parse_document(format_document(d), fallback_id) == Ok::<OodleView, ParseError>(
            document_as_read(d),
        ),
        d == document_as_read(d) ==> parse_document(format_document(d), fallback_id) == Ok::<
            OodleView,
            ParseError,
        >(d),
{
    let g = format_messages(d.messages, 0);
    lemma_header_round_trip(d.name, d.id, g);
    lemma_messages_round_trip(d.messages, None, false);
    if d.messages.len() > 0 {
        assert(g[0] == '\n');
    } else {
        assert(g.len() == 0);
    }
    assert(written_messages(d.messages, None, false) == (if g.len() > 0 && g[0] == '\n' {
        g.subrange(1, g.len() as int)
    } else {
        g
    }));
}

/// The messages read from a body have rising ids, the first above `last`.
pub proof fn lemma_read_ids_rise(s: Seq<char>, last: Option<usize>)
    ensures
        parse_messages(s, last) matches Ok(messages) ==> ids_increase(messages) && follows(
            last,
            messages,
        ),
    decreases s.len(),
{
    reveal(parse_messages);
    let k = find_terminator_from(s, 0);
    lemma_find_terminator_from(s, 0);
    match parse_messages(s, last) {
        Err(_) => {},
        Ok(messages) => {
            if 0 <= k && k + 3 <= s.len() {
                let m = parse_message(trim(s.subrange(0, k)))->Ok_0;
                let placed = place(m, last);
                let tail = s.subrange(k + 3, s.len() as int);
                lemma_read_ids_rise(tail, Some(placed.id));
                let rest = parse_messages(tail, Some(placed.id))->Ok_0;
                assert(messages == seq![placed] + rest);
                assert(messages[0] == placed);
                assert forall|i: int, j: int| 0 <= i < j < messages.len() implies messages[i].id
                    < messages[j].id by {
                    assert(messages[j] == rest[j - 1]);
                    if i == 0 {
                        assert(rest[0].id > placed.id);
                        if j > 1 {
                            assert(rest[0].id < rest[j - 1].id);
                        }
                    } else {
                        assert(messages[i] == rest[i - 1]);
                    }
                }
            } else if trim(s).len() > 0 {
                let m = parse_message(trim(s))->Ok_0;
                assert(messages == seq![place(m, last)]);
                assert(messages[0] == place(m, last));
            } else {
                assert(messages.len() == 0);
            }
        },
    }
}

/// In every document that is read, the ids of the messages rise: each id
/// occurs once.
pub proof fn law_read_ids_rise(s: Seq<char>, fallback_id: Seq<char>)
    ensures
        parse_document(s, fallback_id) matches Ok(d) ==> ids_increase(d.messages),
{
    match parse_header(s) {
        Ok(header) => {
            lemma_read_ids_rise(header.body, None);
        },
        Err(_) => {},
    }
}

/// An identifier that can be cited: it holds no slash and does not start
/// with a tilde.
pub open spec fn citable(id: Seq<char>) -> bool {
    lacks(id, '/') && (id.len() > 0 ==> id[0] != '~')
}

/// The identifier that a citation names; none for a citation of the same
/// document.
pub open spec fn cited_identifier(r: ReferenceView) -> Seq<char> {
    match r {
        ReferenceView::Message { oodle_id, .. } => oodle_id,
        ReferenceView::Oodle { oodle_id } => oodle_id,
        ReferenceView::Internal { .. } => Seq::empty(),
    }
}

/// A written citation reads back as the citation, for every citation of a
/// document whose identifier can be cited. Where the identifier holds no
/// closing brace either, the first closing brace of the written citation is
/// its last character, so that the scanner takes it as one token.
pub proof fn law_reference_round_trip(r: ReferenceView)
    requires
        citable(cited_identifier(r)),
    ensures
        parse_reference(format_reference(r)) == Some(r),
        format_reference(r).len() >= 2,
        format_reference(r)[0] == '{',
        lacks(cited_identifier(r), '}') ==> find_char(format_reference(r), '}')
            == format_reference(r).len() - 1,
{
    let t = format_reference(r);
    lemma_digit_chars_plain();
    match r {
        ReferenceView::Internal { message_id } => {
            let d = decimal(message_id as int);
            lemma_decimal(message_id as int);
            lemma_parse_decimal(message_id);
            assert(t == seq!['{', '~'] + d + seq!['}']);
            assert(t.subrange(2, t.len() - 1) =~= d);
            assert forall|j: int| 0 <= j < t.len() - 1 implies t[j] != '}' by {
                if j >= 2 {
                    assert(t[j] == d[j - 2]);
                    assert(crate::text::is_digit(d[j - 2]));
                }
            }
            lemma_find_char_is(t, '}', 0, t.len() - 1);
        },
        ReferenceView::Oodle { oodle_id } => {
            assert(t == seq!['{'] + oodle_id + seq!['}']);
            let inner = t.subrange(1, t.len() - 1);
            assert(inner =~= oodle_id);
            if oodle_id.len() > 0 {
                assert(t[1] == oodle_id[0]);
            }
            lemma_find_char_is(inner, '/', 0, inner.len() as int);
            if lacks(oodle_id, '}') {
                assert forall|j: int| 0 <= j < t.len() - 1 implies t[j] != '}' by {
                    if j >= 1 {
                        assert(t[j] == oodle_id[j - 1]);
                    }
                }
                lemma_find_char_is(t, '}', 0, t.len() - 1);
            }
        },
        ReferenceView::Message { oodle_id, message_id } => {
            let d = decimal(message_id as int);
            lemma_decimal(message_id as int);
            lemma_parse_decimal(message_id);
            assert(t == seq!['{'] + oodle_id + seq!['/'] + d + seq!['}']);
            let inner = t.subrange(1, t.len() - 1);
            assert(inner =~= oodle_id + seq!['/'] + d);
            let n = oodle_id.len() as int;
            if n > 0 {
                assert(t[1] == oodle_id[0]);
            } else {
                assert(t[1] == '/');
            }
            assert forall|j: int| 0 <= j < n implies inner[j] != '/' by {
                assert(inner[j] == oodle_id[j]);
            }
            assert(inner[n] == '/');
            lemma_find_char_is(inner, '/', 0, n);
            assert(inner.subrange(0, n) =~= oodle_id);
            assert(inner.subrange(n + 1, inner.len() as int) =~= d);
            if lacks(oodle_id, '}') {
                assert forall|j: int| 0 <= j < t.len() - 1 implies t[j] != '}' by {
                    if 1 <= j < 1 + n {
                        assert(t[j] == oodle_id[j - 1]);
                    } else if j > 1 + n {
                        assert(t[j] == d[j - 2 - n]);
                        assert(crate::text::is_digit(d[j - 2 - n]));
                    }
                }
                lemma_find_char_is(t, '}', 0, t.len() - 1);
            }
        },
    }
}

/// Two messages differ in their backlinks at most, and `b` holds every
/// backlink of `a`.
pub open spec fn same_message_text(a: MessageView, b: MessageView) -> bool {
    &&& a.id == b.id
    &&& a.date == b.date
    &&& a.content == b.content
    &&& a.references == b.references
    &&& forall|link: BacklinkView| a.backlinks.contains(link) ==> b.backlinks.contains(link)
}

/// Two documents differ in backlinks at most, and `b` holds every backlink
/// of `a`.
pub open spec fn same_document_text(a: OodleView, b: OodleView) -> bool {
    &&& a.id == b.id
    &&& a.name == b.name
    &&& a.file == b.file
    &&& a.messages.len() == b.messages.len()
    &&& forall|j: int|
        0 <= j < a.messages.len() ==> same_message_text(
            #[trigger] a.messages[j],
            b.messages[j],
        )
    &&& forall|link: BacklinkView| a.backlinks.contains(link) ==> b.backlinks.contains(link)
}

/// Two collections hold the same documents but for backlinks, of which
/// `b` holds every one of `a`.
pub open spec fn same_texts(a: Seq<OodleView>, b: Seq<OodleView>) -> bool {
    &&& a.len() == b.len()
    &&& forall|i: int| 0 <= i < a.len() ==> same_document_text(#[trigger] a[i], b[i])
}

/// Adding a backlink loses none.
proof fn lemma_with_backlink_keeps(links: Seq<BacklinkView>, link: BacklinkView)
    ensures
        forall|l: BacklinkView| links.contains(l) ==> with_backlink(links, link).contains(l),
        with_backlink(links, link).contains(link),
{
    let after = with_backlink(links, link);
    if !links.contains(link) {
        assert(after[links.len() as int] == link);
        assert forall|l: BacklinkView| links.contains(l) implies after.contains(l) by {
            let i = choose|i: int| 0 <= i < links.len() && links[i] == l;
            assert(after[i] == l);
        }
    }
}

/// Citing a message of a document changes backlinks only.
proof fn lemma_cited_in_document_keeps(d: OodleView, message_id: usize, link: BacklinkView)
    ensures
        same_document_text(d, cited_in_document(d, message_id, link)),
{
    let after = cited_in_document(d, message_id, link);
    let k = crate::document::position_of_id(d.messages, message_id, 0);
    if 0 <= k < d.messages.len() {
        lemma_with_backlink_keeps(d.messages[k].backlinks, link);
        assert forall|j: int| 0 <= j < d.messages.len() implies same_message_text(
            #[trigger] d.messages[j],
            after.messages[j],
        ) by {
            if j == k {
                assert(after.messages[j] == cited_message(d.messages[k], link));
            }
        }
    }
}

/// Recording one citation changes backlinks only, and loses none.
proof fn lemma_resolve_reference_keeps(
    docs: Seq<OodleView>,
    source: BacklinkView,
    reference: ReferenceView,
)
    ensures
        same_texts(docs, resolve_reference(docs, source, reference)),
{
    let after = resolve_reference(docs, source, reference);
    match reference {
        ReferenceView::Oodle { oodle_id } => {
            let k = crate::collection::position_of_document(docs, oodle_id, 0);
            if 0 <= k < docs.len() {
                lemma_with_backlink_keeps(docs[k].backlinks, source);
                assert(after[k] == cited_document(docs[k], source));
            }
        },
        ReferenceView::Message { oodle_id, message_id } => {
            let k = crate::collection::position_of_document(docs, oodle_id, 0);
            if 0 <= k < docs.len() {
                lemma_cited_in_document_keeps(docs[k], message_id, source);
            }
        },
        ReferenceView::Internal { message_id } => {
            let k = crate::collection::position_of_document(docs, source.oodle_id, 0);
            if 0 <= k < docs.len() {
                lemma_cited_in_document_keeps(docs[k], message_id, source);
            }
        },
    }
    assert forall|i: int| 0 <= i < docs.len() implies same_document_text(
        #[trigger] docs[i],
        after[i],
    ) by {}
}

/// Recording citations changes nothing but backlinks, and loses no
/// backlink: every document and every message keeps its place, its
/// identity and its text.
pub proof fn law_resolution_keeps_texts(
    docs: Seq<OodleView>,
    source: BacklinkView,
    references: Seq<ReferenceView>,
)
    ensures
        same_texts(docs, resolve_references(docs, source, references)),
    decreases references.len(),
{
    if references.len() > 0 {
        let step = resolve_reference(docs, source, references[0]);
        let after = resolve_references(docs, source, references);
        lemma_resolve_reference_keeps(docs, source, references[0]);
        law_resolution_keeps_texts(step, source, references.drop_first());
        assert forall|i: int| 0 <= i < docs.len() implies same_document_text(
            #[trigger] docs[i],
            after[i],
        ) by {
            assert(same_document_text(docs[i], step[i]));
            assert(same_document_text(step[i], after[i]));
            assert forall|j: int| 0 <= j < docs[i].messages.len() implies same_message_text(
                #[trigger] docs[i].messages[j],
                after[i].messages[j],
            ) by {
                assert(same_message_text(docs[i].messages[j], step[i].messages[j]));
                assert(same_message_text(step[i].messages[j], after[i].messages[j]));
            }
        }
    }
}

/// Messages that differ in backlinks at most are written alike.
proof fn lemma_messages_written_alike(a: Seq<MessageView>, b: Seq<MessageView>, expected: int)
    requires
        a.len() == b.len(),
        forall|j: int| 0 <= j < a.len() ==> same_message_text(#[trigger] a[j], b[j]),
    ensures
        format_messages(a, expected) == format_messages(b, expected),
    decreases a.len(),
{
    if a.len() > 0 {
        assert(same_message_text(a[0], b[0]));
        let x = a.drop_first();
        let y = b.drop_first();
        assert forall|j: int| 0 <= j < x.len() implies same_message_text(#[trigger] x[j], y[j]) by {
            assert(same_message_text(a[j + 1], b[j + 1]));
        }
        lemma_messages_written_alike(x, y, a[0].id + 1);
        assert(format_message(a[0], a[0].id != expected) == format_message(
            b[0],
            b[0].id != expected,
        ));
    }
}

/// Backlinks are no part of the written form: documents that differ in
/// backlinks at most are written alike.
pub proof fn law_backlinks_are_not_written(a: OodleView, b: OodleView)
    requires
        same_document_text(a, b),
    ensures
        format_document(a) == format_document(b),
{
    lemma_messages_written_alike(a.messages, b.messages, 0);
}

/// The count of days agrees with the calendar: a year is as long as its
/// leap rule says, and a month as long as its length.
pub proof fn law_day_count(year: int, month: int)
    requires
        0 <= year,
        1 <= month <= 12,
    ensures
        days_before_year(year + 1) - days_before_year(year) == (if is_leap_year(year) {
            366int
        } else {
            365int
        }),
        days_before_month(year, 1) == 0,
        month < 12 ==> days_before_month(year, month + 1) - days_before_month(year, month)
            == days_in_month(year, month),
        days_before_month(year, 12) + days_in_month(year, 12) == days_before_year(year + 1)
            - days_before_year(year),
        days_before_year(1970) == 719528,
{
}

} // verus!
