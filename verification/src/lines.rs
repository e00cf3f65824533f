//! Lines of a text and the lone-period rule of message bodies.
//!
//! A body line that is exactly `.` would read as the end of a message, so it
//! is written as `..` and read back as `.`.

use crate::text::{
    append_chars, find_char, index_of_char, find_char_from, lemma_find_char_from,
    lemma_find_char_is, slice_of,
};
use vstd::prelude::*;

verus! {

/// The first line of a non-empty text: what stands before the first newline,
/// without the carriage return that may end it; the whole text when it holds
/// no newline.
pub open spec fn first_line(s: Seq<char>) -> Seq<char> {
    let e = find_char(s, '\n');
    if 0 < e < s.len() && s[e - 1] == '\r' {
        s.subrange(0, e - 1)
    } else {
        s.subrange(0, e)
    }
}

/// What follows the first line and its newline.
pub open spec fn after_first_line(s: Seq<char>) -> Seq<char> {
    let e = find_char(s, '\n');
    if 0 <= e < s.len() {
        s.subrange(e + 1, s.len() as int)
    } else {
        Seq::empty()
    }
}

/// The line `.`.
pub open spec fn lone_period() -> Seq<char> {
    seq!['.']
}

/// The line `..`.
pub open spec fn double_period() -> Seq<char> {
    seq!['.', '.']
}

/// A body line as it is written: `.` becomes `..`.
pub open spec fn escape_line(line: Seq<char>) -> Seq<char> {
    if line == lone_period() {
        double_period()
    } else {
        line
    }
}

/// A written line as it is read: `..` becomes `.`.
pub open spec fn unescape_line(line: Seq<char>) -> Seq<char> {
    if line == double_period() {
        lone_period()
    } else {
        line
    }
}

/// One line rewritten by the rule in force.
pub open spec fn rewrite_line(line: Seq<char>, escaping: bool) -> Seq<char> {
    if escaping {
        escape_line(line)
    } else {
        unescape_line(line)
    }
}

/// Every line of `s` rewritten and ended by a newline.
pub open spec fn rewrite_lines(s: Seq<char>, escaping: bool) -> Seq<char>
    decreases s.len(),
{
    if s.len() == 0 {
        Seq::empty()
    } else {
        rewrite_line(first_line(s), escaping) + seq!['\n'] + rewrite_lines(
            after_first_line(s),
            escaping,
        )
    }
}

/// A message body as it is written: each line escaped and newline-terminated.
pub open spec fn format_body(content: Seq<char>) -> Seq<char> {
    rewrite_lines(content, true)
}

/// A written body with each line unescaped and newline-terminated.
pub open spec fn unescape_body(body: Seq<char>) -> Seq<char> {
    rewrite_lines(body, false)
}

/// `s` without the newline that ends it, where one does.
pub open spec fn without_final_newline(s: Seq<char>) -> Seq<char> {
    if s.len() > 0 && s.last() == '\n' {
        s.drop_last()
    } else {
        s
    }
}

/// Some line of `s` is exactly `line`.
pub open spec fn has_line(s: Seq<char>, line: Seq<char>) -> bool
    decreases s.len(),
{
    s.len() > 0 && (first_line(s) == line || has_line(after_first_line(s), line))
}

/// Searching a suffix is searching the whole from where the suffix starts.
pub proof fn lemma_find_char_suffix(s: Seq<char>, c: char, i: int)
    requires
        0 <= i <= s.len(),
    ensures
        find_char(s.subrange(i, s.len() as int), c) == find_char_from(s, c, i) - i,
{
    let t = s.subrange(i, s.len() as int);
    let k = find_char_from(s, c, i);
    lemma_find_char_from(s, c, i);
    assert forall|j: int| 0 <= j < k - i implies t[j] != c by {
        assert(t[j] == s[i + j]);
    }
    if k < s.len() {
        assert(t[k - i] == s[k]);
    }
    lemma_find_char_is(t, c, 0, k - i);
}

/// The first line and the rest of the suffix `s[i..]`, by positions in `s`.
pub proof fn lemma_first_line_of_suffix(s: Seq<char>, i: int)
    requires
        0 <= i < s.len(),
    ensures
        ({
            let e = find_char_from(s, '\n', i);
            let t = s.subrange(i, s.len() as int);
            &&& i <= e <= s.len()
            &&& first_line(t) == (if i < e < s.len() && s[e - 1] == '\r' {
                s.subrange(i, e - 1)
            } else {
                s.subrange(i, e)
            })
            &&& after_first_line(t) == (if e < s.len() {
                s.subrange(e + 1, s.len() as int)
            } else {
                Seq::empty()
            })
        }),
{
    let e = find_char_from(s, '\n', i);
    let t = s.subrange(i, s.len() as int);
    lemma_find_char_suffix(s, '\n', i);
    lemma_find_char_from(s, '\n', i);
    let k = e - i;
    if 0 < k < t.len() {
        assert(t[k - 1] == s[e - 1]);
    }
    if 0 < k < t.len() && t[k - 1] == '\r' {
        assert(t.subrange(0, k - 1) =~= s.subrange(i, e - 1));
    } else {
        assert(t.subrange(0, k) =~= s.subrange(i, e));
    }
    if e < s.len() {
        assert(t.subrange(k + 1, t.len() as int) =~= s.subrange(e + 1, s.len() as int));
    }
}

/// Appends every line of `text`, rewritten and newline-terminated, to `out`.
pub fn push_rewritten_lines(out: &mut Vec<char>, text: &Vec<char>, escaping: bool)
    ensures
        final(out)@ == old(out)@ + rewrite_lines(text@, escaping),
{
    let n = text.len();
    let mut pos: usize = 0;
    proof {
        assert(text@.subrange(0, n as int) =~= text@);
    }
    while pos < n
        invariant
            pos <= n == text.len(),
            old(out)@ + rewrite_lines(text@, escaping) == out@ + rewrite_lines(
                text@.subrange(pos as int, n as int),
                escaping,
            ),
        decreases n - pos,
    {
        let ghost rest = text@.subrange(pos as int, n as int);
        let ghost before = out@;
        let e = index_of_char(text, '\n', pos);
        let end: usize = if pos < e && e < n && text[e - 1] == '\r' {
            e - 1
        } else {
            e
        };
        proof {
            lemma_first_line_of_suffix(text@, pos as int);
            assert(first_line(rest) == text@.subrange(pos as int, end as int));
        }
        let line = slice_of(text, pos, end);
        if escaping && line.len() == 1 && line[0] == '.' {
            assert(line@ =~= lone_period());
            out.push('.');
            out.push('.');
            assert(out@ =~= before + rewrite_line(line@, escaping));
        } else if !escaping && line.len() == 2 && line[0] == '.' && line[1] == '.' {
            assert(line@ =~= double_period());
            out.push('.');
            assert(out@ =~= before + rewrite_line(line@, escaping));
        } else {
            proof {
                if line@ == lone_period() {
                    assert(line@.len() == 1 && line@[0] == '.');
                }
                if line@ == double_period() {
                    assert(line@.len() == 2 && line@[0] == '.' && line@[1] == '.');
                }
            }
            append_chars(out, &line);
        }
        out.push('\n');
        let next: usize = if e < n {
            e + 1
        } else {
            n
        };
        proof {
            let tail = text@.subrange(next as int, n as int);
            assert(after_first_line(rest) =~= tail);
            assert(out@ =~= before + (rewrite_line(line@, escaping) + seq!['\n']));
            assert(out@ + rewrite_lines(tail, escaping) =~= before + rewrite_lines(
                rest,
                escaping,
            ));
        }
        pos = next;
    }
    proof {
        assert(text@.subrange(n as int, n as int) =~= Seq::<char>::empty());
        assert(out@ + Seq::<char>::empty() =~= out@);
    }
}

} // verus!
