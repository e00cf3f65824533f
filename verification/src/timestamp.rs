//! Timestamps and the dateline that introduces a written message.
//!
//! A dateline is `YYYY-MM-DD HH:MM:SS±HHMM`, optionally followed by a space
//! and a sequence index in parentheses.

use crate::text::{
    char_of_digit, decimal, digit_char, digit_of, digit_value, is_digit, is_whitespace, lacks,
    lemma_decimal, lemma_parse_decimal, parse_number, read_number, push_decimal, slice_of,
    string_of,
};
use vstd::prelude::*;

verus! {

/// A calendar date and wall-clock time together with the UTC offset it was
/// taken in. The offset is part of the value and is written out as it is held.
#[derive(Clone, Copy, Debug, PartialEq, Eq, Structural)]
pub struct Timestamp {
    pub year: i32,
    pub month: u8,
    pub day: u8,
    pub hour: u8,
    pub minute: u8,
    pub second: u8,
    pub offset_hours: i8,
    pub offset_minutes: i8,
}

/// Leap years of the proleptic Gregorian calendar.
pub open spec fn is_leap_year(year: int) -> bool {
    year % 4 == 0 && (year % 100 != 0 || year % 400 == 0)
}

/// The number of days of a month, `1 <= month <= 12`, in a year.
pub open spec fn days_in_month(year: int, month: int) -> int {
    if month == 2 {
        if is_leap_year(year) {
            29
        } else {
            28
        }
    } else if month == 4 || month == 6 || month == 9 || month == 11 {
        30
    } else {
        31
    }
}

/// The days from the first day of year 0 to the first day of `year`: 365
/// for each year and one more for each leap year among them.
pub open spec fn days_before_year(year: int) -> int {
    365 * year + (year + 3) / 4 - (year + 99) / 100 + (year + 399) / 400
}

/// The days from the first day of `year` to the first day of `month`.
pub open spec fn days_before_month(year: int, month: int) -> int {
    let common: int = if month <= 1 {
        0
    } else if month == 2 {
        31
    } else if month == 3 {
        59
    } else if month == 4 {
        90
    } else if month == 5 {
        120
    } else if month == 6 {
        151
    } else if month == 7 {
        181
    } else if month == 8 {
        212
    } else if month == 9 {
        243
    } else if month == 10 {
        273
    } else if month == 11 {
        304
    } else {
        334
    };
    if month > 2 && is_leap_year(year) {
        common + 1
    } else {
        common
    }
}

/// The days from 1 January 1970 to the given date.
pub open spec fn days_since_epoch(year: int, month: int, day: int) -> int {
    days_before_year(year) + days_before_month(year, month) + (day - 1) - days_before_year(1970)
}

/// Seconds from 1970-01-01 00:00:00 UTC to the moment that the timestamp
/// names: the days since then, the time of day, less the offset.
pub open spec fn unix_seconds(t: Timestamp) -> int {
    days_since_epoch(t.year as int, t.month as int, t.day as int) * 86400 + t.hour * 3600
        + t.minute * 60 + t.second - (t.offset_hours * 3600 + t.offset_minutes * 60)
}

/// The length of a month of the proleptic Gregorian calendar.
fn month_length(year: i32, month: u8) -> (r: u8)
    requires
        0 <= year <= 9999,
        1 <= month <= 12,
    ensures
        r == days_in_month(year as int, month as int),
{
    if month == 2 {
        if year % 4 == 0 && (year % 100 != 0 || year % 400 == 0) {
            29
        } else {
            28
        }
    } else if month == 4 || month == 6 || month == 9 || month == 11 {
        30
    } else {
        31
    }
}

/// `time::OffsetDateTime::now_utc`, moved to the given offset with
/// `checked_to_offset`: the calendar components of the present moment.
/// Nothing is claimed of the reading; `None` when the offset or the moved
/// date lies outside what the `time` crate represents.
#[verifier::external_body]
fn clock_reading(offset_hours: i8, offset_minutes: i8) -> (r: Option<(i32, u8, u8, u8, u8, u8)>) {
    let offset = time::UtcOffset::from_hms(offset_hours, offset_minutes, 0).ok()?;
    let now = time::OffsetDateTime::now_utc().checked_to_offset(offset)?;
    Some((now.year(), u8::from(now.month()), now.day(), now.hour(), now.minute(), now.second()))
}

/// `time::OffsetDateTime::unix_timestamp` of the date-time built from the
/// components: the days between the date and 1 January 1970 by the count
/// of the proleptic Gregorian calendar, times 86 400, plus the seconds of
/// the time of day, less the seconds of the offset.
#[verifier::external_body]
fn unix_timestamp_of(t: &Timestamp) -> (r: i64)
    requires
        t.wf(),
    ensures
        r == unix_seconds(*t),
{
    let month = time::Month::try_from(t.month).unwrap();
    let date = time::Date::from_calendar_date(t.year, month, t.day).unwrap();
    let clock = time::Time::from_hms(t.hour, t.minute, t.second).unwrap();
    let offset = time::UtcOffset::from_hms(t.offset_hours, t.offset_minutes, 0).unwrap();
    time::OffsetDateTime::new_in_offset(date, clock, offset).unix_timestamp()
}

impl Timestamp {
    /// A timestamp that a dateline can carry: a four-digit year, a real
    /// calendar date, a time of day, and an offset whose hours and minutes
    /// agree in sign.
    pub open spec fn wf(self) -> bool {
        &&& 0 <= self.year <= 9999
        &&& 1 <= self.month <= 12
        &&& 1 <= self.day <= days_in_month(self.year as int, self.month as int)
        &&& self.hour < 24
        &&& self.minute < 60
        &&& self.second < 60
        &&& -25 <= self.offset_hours <= 25
        &&& -59 <= self.offset_minutes <= 59
        &&& (self.offset_hours > 0 ==> self.offset_minutes >= 0)
        &&& (self.offset_hours < 0 ==> self.offset_minutes <= 0)
    }

    /// Whether the offset lies west of UTC.
    pub open spec fn offset_is_negative(self) -> bool {
        self.offset_hours < 0 || self.offset_minutes < 0
    }

    /// The timestamp with the given components, when they form a valid one.
    pub fn new(
        year: i32,
        month: u8,
        day: u8,
        hour: u8,
        minute: u8,
        second: u8,
        offset_hours: i8,
        offset_minutes: i8,
    ) -> (r: Option<Timestamp>)
        ensures
            r == (if (Timestamp {
                year,
                month,
                day,
                hour,
                minute,
                second,
                offset_hours,
                offset_minutes,
            }).wf() {
                Some(
                    Timestamp {
                        year,
                        month,
                        day,
                        hour,
                        minute,
                        second,
                        offset_hours,
                        offset_minutes,
                    },
                )
            } else {
                None
            }),
    {
        if year < 0 || year > 9999 || month < 1 || month > 12 || day < 1 {
            return None;
        }
        if day > month_length(year, month) {
            return None;
        }
        if hour >= 24 || minute >= 60 || second >= 60 {
            return None;
        }
        if offset_hours < -25 || offset_hours > 25 || offset_minutes < -59 || offset_minutes > 59 {
            return None;
        }
        if (offset_hours > 0 && offset_minutes < 0) || (offset_hours < 0 && offset_minutes > 0) {
            return None;
        }
        Some(Timestamp { year, month, day, hour, minute, second, offset_hours, offset_minutes })
    }

    /// Whether the timestamp is one that a dateline can carry.
    pub fn is_valid(&self) -> (r: bool)
        ensures
            r == self.wf(),
    {
        Timestamp::new(
            self.year,
            self.month,
            self.day,
            self.hour,
            self.minute,
            self.second,
            self.offset_hours,
            self.offset_minutes,
        ).is_some()
    }

    /// The present moment as seen in the given offset, when the clock shows a
    /// moment that a dateline can carry.
    pub fn now(offset_hours: i8, offset_minutes: i8) -> (r: Option<Timestamp>)
        ensures
            r matches Some(t) ==> t.wf() && t.offset_hours == offset_hours && t.offset_minutes
                == offset_minutes,
    {
        match clock_reading(offset_hours, offset_minutes) {
            None => None,
            Some((year, month, day, hour, minute, second)) => Timestamp::new(
                year,
                month,
                day,
                hour,
                minute,
                second,
                offset_hours,
                offset_minutes,
            ),
        }
    }

    /// Seconds since the Unix epoch.
    pub fn unix_timestamp(&self) -> (r: i64)
        requires
            self.wf(),
        ensures
            r == unix_seconds(*self),
    {
        unix_timestamp_of(self)
    }

    /// The timestamp as its 24 dateline characters.
    pub fn formatted(&self) -> (s: String)
        requires
            self.wf(),
        ensures
            s@ == format_timestamp(*self),
    {
        let mut out: Vec<char> = Vec::new();
        push_timestamp(&mut out, self);
        string_of(&out)
    }
}

/// The magnitude of an offset component.
pub open spec fn magnitude(n: int) -> int {
    if n < 0 {
        -n
    } else {
        n
    }
}

/// The tens digit of a number below one hundred.
pub open spec fn tens_char(n: int) -> char {
    digit_char(n / 10)
}

/// The units digit of a number.
pub open spec fn ones_char(n: int) -> char {
    digit_char(n % 10)
}

/// The character at position `i` of a written timestamp.
pub open spec fn timestamp_char(t: Timestamp, i: int) -> char {
    if i == 0 {
        tens_char(t.year as int / 100)
    } else if i == 1 {
        ones_char(t.year as int / 100)
    } else if i == 2 {
        tens_char(t.year as int % 100)
    } else if i == 3 {
        ones_char(t.year as int % 100)
    } else if i == 4 {
        '-'
    } else if i == 5 {
        tens_char(t.month as int)
    } else if i == 6 {
        ones_char(t.month as int)
    } else if i == 7 {
        '-'
    } else if i == 8 {
        tens_char(t.day as int)
    } else if i == 9 {
        ones_char(t.day as int)
    } else if i == 10 {
        ' '
    } else if i == 11 {
        tens_char(t.hour as int)
    } else if i == 12 {
        ones_char(t.hour as int)
    } else if i == 13 {
        ':'
    } else if i == 14 {
        tens_char(t.minute as int)
    } else if i == 15 {
        ones_char(t.minute as int)
    } else if i == 16 {
        ':'
    } else if i == 17 {
        tens_char(t.second as int)
    } else if i == 18 {
        ones_char(t.second as int)
    } else if i == 19 {
        if t.offset_is_negative() {
            '-'
        } else {
            '+'
        }
    } else if i == 20 {
        tens_char(magnitude(t.offset_hours as int))
    } else if i == 21 {
        ones_char(magnitude(t.offset_hours as int))
    } else if i == 22 {
        tens_char(magnitude(t.offset_minutes as int))
    } else {
        ones_char(magnitude(t.offset_minutes as int))
    }
}

/// A timestamp written as `YYYY-MM-DD HH:MM:SS±HHMM`.
pub open spec fn format_timestamp(t: Timestamp) -> Seq<char> {
    Seq::new(24, |i: int| timestamp_char(t, i))
}

/// The two-digit number at positions `i` and `i + 1` of `s`.
pub open spec fn two_digit_value(s: Seq<char>, i: int) -> int {
    digit_value(s[i]) * 10 + digit_value(s[i + 1])
}

/// Whether `s` has the shape of a written timestamp: digits and separators
/// each in their place.
pub open spec fn timestamp_shape(s: Seq<char>) -> bool {
    &&& s.len() == 24
    &&& is_digit(s[0]) && is_digit(s[1]) && is_digit(s[2]) && is_digit(s[3])
    &&& s[4] == '-'
    &&& is_digit(s[5]) && is_digit(s[6])
    &&& s[7] == '-'
    &&& is_digit(s[8]) && is_digit(s[9])
    &&& s[10] == ' '
    &&& is_digit(s[11]) && is_digit(s[12])
    &&& s[13] == ':'
    &&& is_digit(s[14]) && is_digit(s[15])
    &&& s[16] == ':'
    &&& is_digit(s[17]) && is_digit(s[18])
    &&& (s[19] == '+' || s[19] == '-')
    &&& is_digit(s[20]) && is_digit(s[21]) && is_digit(s[22]) && is_digit(s[23])
}

/// `n` with a sign put before it.
pub open spec fn signed(negative: bool, n: int) -> int {
    if negative {
        -n
    } else {
        n
    }
}

/// The components that a text of timestamp shape spells, valid or not.
pub open spec fn timestamp_fields(s: Seq<char>) -> Timestamp {
    let negative = s[19] == '-';
    Timestamp {
        year: (two_digit_value(s, 0) * 100 + two_digit_value(s, 2)) as i32,
        month: two_digit_value(s, 5) as u8,
        day: two_digit_value(s, 8) as u8,
        hour: two_digit_value(s, 11) as u8,
        minute: two_digit_value(s, 14) as u8,
        second: two_digit_value(s, 17) as u8,
        offset_hours: signed(negative, two_digit_value(s, 20)) as i8,
        offset_minutes: signed(negative, two_digit_value(s, 22)) as i8,
    }
}

/// The timestamp that `s` spells, if `s` is a written timestamp.
pub open spec fn parse_timestamp(s: Seq<char>) -> Option<Timestamp> {
    if timestamp_shape(s) && timestamp_fields(s).wf() {
        Some(timestamp_fields(s))
    } else {
        None
    }
}

/// Index of the last `c` in `s` before `j`, or `-1` when there is none.
pub open spec fn rfind_char(s: Seq<char>, c: char, j: int) -> int
    decreases j,
{
    if j <= 0 || j > s.len() {
        -1
    } else if s[j - 1] == c {
        j - 1
    } else {
        rfind_char(s, c, j - 1)
    }
}

/// A dateline: the timestamp, then ` (N)` when an index is to be shown.
pub open spec fn format_dateline(t: Timestamp, index: Option<usize>) -> Seq<char> {
    match index {
        None => format_timestamp(t),
        Some(n) => format_timestamp(t) + seq![' ', '('] + decimal(n as int) + seq![')'],
    }
}

/// The index and timestamp that a dateline spells. A line that ends in `)`
/// carries an index: what follows its last space must be `(N)`.
pub open spec fn parse_dateline(line: Seq<char>) -> Option<(Option<usize>, Timestamp)> {
    if line.len() > 0 && line.last() == ')' {
        let space = rfind_char(line, ' ', line.len() as int);
        if space < 0 || line[space + 1] != '(' {
            None
        } else {
            match (
                parse_number(line.subrange(space + 2, line.len() - 1)),
                parse_timestamp(line.subrange(0, space)),
            ) {
                (Some(n), Some(t)) => Some((Some(n), t)),
                _ => None,
            }
        }
    } else {
        match parse_timestamp(line) {
            Some(t) => Some((None, t)),
            None => None,
        }
    }
}

/// What the last index before `j` is: no `c` stands between it and `j`,
/// and a `c` stands at it unless there is none.
pub proof fn lemma_rfind_char(s: Seq<char>, c: char, j: int)
    requires
        0 <= j <= s.len(),
    ensures
        -1 <= rfind_char(s, c, j) < j,
        forall|k: int| rfind_char(s, c, j) < k < j ==> s[k] != c,
        rfind_char(s, c, j) >= 0 ==> s[rfind_char(s, c, j)] == c,
    decreases j,
{
    if j > 0 && s[j - 1] != c {
        lemma_rfind_char(s, c, j - 1);
    }
}

/// An index behind which no `c` stands before `j`, and at which a `c`
/// stands unless it is `-1`, is the last index before `j`.
pub proof fn lemma_rfind_char_is(s: Seq<char>, c: char, j: int, k: int)
    requires
        -1 <= k < j <= s.len(),
        forall|i: int| k < i < j ==> s[i] != c,
        k >= 0 ==> s[k] == c,
    ensures
        rfind_char(s, c, j) == k,
    decreases j - k,
{
    if k < j - 1 {
        lemma_rfind_char_is(s, c, j - 1, k);
    }
}

/// The two digits of a number below one hundred are digits and spell it.
pub proof fn lemma_two_digits(n: int)
    requires
        0 <= n < 100,
    ensures
        is_digit(tens_char(n)),
        is_digit(ones_char(n)),
        digit_value(tens_char(n)) * 10 + digit_value(ones_char(n)) == n,
        !is_whitespace(ones_char(n)),
{
    let a = n / 10;
    let b = n % 10;
    assert(0 <= a < 10 && 0 <= b < 10);
    assert(digit_value(digit_char(a)) == a);
    assert(digit_value(digit_char(b)) == b);
}

/// A written timestamp has the timestamp shape and spells the timestamp.
pub proof fn lemma_timestamp_round_trip(t: Timestamp)
    requires
        t.wf(),
    ensures
        format_timestamp(t).len() == 24,
        parse_timestamp(format_timestamp(t)) == Some(t),
        lacks(format_timestamp(t), '\n'),
        format_timestamp(t).last() != ')',
        is_digit(format_timestamp(t)[0]),
        !is_whitespace(format_timestamp(t).last()),
{
    let s = format_timestamp(t);
    lemma_two_digits(t.year as int / 100);
    lemma_two_digits(t.year as int % 100);
    lemma_two_digits(t.month as int);
    lemma_two_digits(t.day as int);
    lemma_two_digits(t.hour as int);
    lemma_two_digits(t.minute as int);
    lemma_two_digits(t.second as int);
    lemma_two_digits(magnitude(t.offset_hours as int));
    lemma_two_digits(magnitude(t.offset_minutes as int));
    lemma_timestamp_chars(t);
    assert(timestamp_shape(s));
    let f = timestamp_fields(s);
    assert(two_digit_value(s, 0) == t.year as int / 100);
    assert(two_digit_value(s, 2) == t.year as int % 100);
    assert(f.year == t.year);
    assert(f.month == t.month);
    assert(f.day == t.day);
    assert(f.hour == t.hour);
    assert(f.minute == t.minute);
    assert(f.second == t.second);
    assert(two_digit_value(s, 20) == magnitude(t.offset_hours as int));
    assert(two_digit_value(s, 22) == magnitude(t.offset_minutes as int));
    assert(f.offset_hours == t.offset_hours);
    assert(f.offset_minutes == t.offset_minutes);
    assert(f == t);
    assert forall|i: int| 0 <= i < s.len() implies s[i] != '\n' by {
        assert(s[i] == timestamp_char(t, i));
        lemma_digit_chars_plain();
    }
}

/// No decimal digit is a newline or a closing parenthesis.
pub proof fn lemma_digit_chars_plain()
    ensures
        forall|c: char|
            is_digit(c) ==> c != '\n' && c != ')' && c != ' ' && c != '.' && c != '\r'
                && !is_whitespace(c),
{
}

/// Each position of a written timestamp holds its character.
pub proof fn lemma_timestamp_chars(t: Timestamp)
    ensures
        format_timestamp(t).len() == 24,
        forall|i: int| 0 <= i < 24 ==> format_timestamp(t)[i] == timestamp_char(t, i),
{
}

/// A written dateline spells the index and timestamp it was written from.
pub proof fn lemma_dateline_round_trip(t: Timestamp, index: Option<usize>)
    requires
        t.wf(),
    ensures
        parse_dateline(format_dateline(t, index)) == Some((index, t)),
        lacks(format_dateline(t, index), '\n'),
        format_dateline(t, index).len() >= 24,
        is_digit(format_dateline(t, index)[0]),
        !is_whitespace(format_dateline(t, index).last()),
{
    lemma_timestamp_round_trip(t);
    lemma_digit_chars_plain();
    let ts = format_timestamp(t);
    match index {
        None => {},
        Some(n) => {
            let d = decimal(n as int);
            lemma_decimal(n as int);
            lemma_parse_decimal(n);
            let line = format_dateline(t, index);
            assert(line.len() == 24 + 2 + d.len() + 1);
            assert(line.last() == ')');
            assert forall|k: int| 24 < k < line.len() implies line[k] != ' ' by {
                if 26 <= k < 26 + d.len() {
                    assert(line[k] == d[k - 26]);
                    assert(is_digit(d[k - 26]));
                }
            }
            assert(line[24] == ' ');
            lemma_rfind_char_is(line, ' ', line.len() as int, 24);
            assert(line.subrange(26, line.len() - 1) =~= d);
            assert(line.subrange(0, 24) =~= ts);
            assert forall|k: int| 0 <= k < line.len() implies line[k] != '\n' by {
                if k < 24 {
                    assert(line[k] == ts[k]);
                } else if 26 <= k < 26 + d.len() {
                    assert(line[k] == d[k - 26]);
                    assert(is_digit(d[k - 26]));
                }
            }
            assert(line[0] == ts[0]);
        },
    }
}

/// Appends the two digits of a number below one hundred.
fn push_two_digits(out: &mut Vec<char>, n: u8)
    requires
        n < 100,
    ensures
        final(out)@ == old(out)@.push(tens_char(n as int)).push(ones_char(n as int)),
{
    out.push(char_of_digit(n / 10));
    out.push(char_of_digit(n % 10));
}

/// The magnitude of an offset component.
fn magnitude_of(n: i8) -> (r: u8)
    requires
        -100 < n < 100,
    ensures
        r == magnitude(n as int),
{
    if n < 0 {
        (0 - n) as u8
    } else {
        n as u8
    }
}

/// Appends the written timestamp to `out`.
pub fn push_timestamp(out: &mut Vec<char>, t: &Timestamp)
    requires
        t.wf(),
    ensures
        final(out)@ == old(out)@ + format_timestamp(*t),
{
    let ghost before = out@;
    let year: u16 = t.year as u16;
    push_two_digits(out, (year / 100) as u8);
    push_two_digits(out, (year % 100) as u8);
    out.push('-');
    push_two_digits(out, t.month);
    out.push('-');
    push_two_digits(out, t.day);
    out.push(' ');
    push_two_digits(out, t.hour);
    out.push(':');
    push_two_digits(out, t.minute);
    out.push(':');
    push_two_digits(out, t.second);
    if t.offset_hours < 0 || t.offset_minutes < 0 {
        out.push('-');
    } else {
        out.push('+');
    }
    push_two_digits(out, magnitude_of(t.offset_hours));
    push_two_digits(out, magnitude_of(t.offset_minutes));
    proof {
        let s = format_timestamp(*t);
        lemma_timestamp_chars(*t);
        assert(out@.len() == before.len() + 24);
        assert(out@ =~= before + s);
    }
}

/// The number that the two digits at `i` and `i + 1` spell, if both are digits.
fn read_two_digits(v: &Vec<char>, i: usize) -> (r: Option<u8>)
    requires
        i + 1 < v.len(),
    ensures
        r is Some <==> is_digit(v@[i as int]) && is_digit(v@[i + 1]),
        r matches Some(n) ==> n == two_digit_value(v@, i as int) && n < 100,
{
    match (digit_of(v[i]), digit_of(v[i + 1])) {
        (Some(a), Some(b)) => Some(a * 10 + b),
        _ => None,
    }
}

/// Reads a written timestamp.
pub fn read_timestamp(v: &Vec<char>) -> (r: Option<Timestamp>)
    ensures
        r == parse_timestamp(v@),
{
    if v.len() != 24 {
        return None;
    }
    if v[4] != '-' || v[7] != '-' || v[10] != ' ' || v[13] != ':' || v[16] != ':' {
        return None;
    }
    if v[19] != '+' && v[19] != '-' {
        return None;
    }
    let negative = v[19] == '-';
    let (century, years, month, day) = match (
        read_two_digits(v, 0),
        read_two_digits(v, 2),
        read_two_digits(v, 5),
        read_two_digits(v, 8),
    ) {
        (Some(a), Some(b), Some(c), Some(d)) => (a, b, c, d),
        _ => {
            return None;
        },
    };
    let (hour, minute, second) = match (
        read_two_digits(v, 11),
        read_two_digits(v, 14),
        read_two_digits(v, 17),
    ) {
        (Some(a), Some(b), Some(c)) => (a, b, c),
        _ => {
            return None;
        },
    };
    let (offset_h, offset_m) = match (read_two_digits(v, 20), read_two_digits(v, 22)) {
        (Some(a), Some(b)) => (a, b),
        _ => {
            return None;
        },
    };
    assert(timestamp_shape(v@));
    let ghost f = timestamp_fields(v@);
    let year: i32 = century as i32 * 100 + years as i32;
    let offset_hours: i8 = if negative {
        0 - (offset_h as i8)
    } else {
        offset_h as i8
    };
    let offset_minutes: i8 = if negative {
        0 - (offset_m as i8)
    } else {
        offset_m as i8
    };
    proof {
        assert(f.year == year);
        assert(f.month == month && f.day == day);
        assert(f.hour == hour && f.minute == minute && f.second == second);
        assert(f.offset_hours == offset_hours);
        assert(f.offset_minutes == offset_minutes);
        assert(f == (Timestamp {
            year,
            month,
            day,
            hour,
            minute,
            second,
            offset_hours,
            offset_minutes,
        }));
    }
    Timestamp::new(year, month, day, hour, minute, second, offset_hours, offset_minutes)
}

/// Last index of `c` in `v`, if any.
fn last_index_of_char(v: &Vec<char>, c: char) -> (r: Option<usize>)
    ensures
        match r {
            Some(k) => k == rfind_char(v@, c, v@.len() as int) && k < v.len(),
            None => rfind_char(v@, c, v@.len() as int) < 0,
        },
{
    let mut j: usize = v.len();
    while j > 0
        invariant
            j <= v.len(),
            rfind_char(v@, c, v@.len() as int) == rfind_char(v@, c, j as int),
        decreases j,
    {
        if v[j - 1] == c {
            return Some(j - 1);
        }
        j = j - 1;
    }
    None
}

/// Reads a dateline.
pub fn read_dateline(line: &Vec<char>) -> (r: Option<(Option<usize>, Timestamp)>)
    ensures
        r == parse_dateline(line@),
{
    let n = line.len();
    if n > 0 && line[n - 1] == ')' {
        match last_index_of_char(line, ' ') {
            None => None,
            Some(space) => {
                proof {
                    lemma_rfind_char(line@, ' ', n as int);
                }
                if line[space + 1] != '(' {
                    return None;
                }
                let index = read_number(line, space + 2, n - 1);
                let stamp = slice_of(line, 0, space);
                match (index, read_timestamp(&stamp)) {
                    (Some(i), Some(t)) => Some((Some(i), t)),
                    _ => None,
                }
            },
        }
    } else {
        match read_timestamp(line) {
            Some(t) => Some((None, t)),
            None => None,
        }
    }
}

/// Appends a dateline to `out`.
pub fn push_dateline(out: &mut Vec<char>, t: &Timestamp, index: Option<usize>)
    requires
        t.wf(),
    ensures
        final(out)@ == old(out)@ + format_dateline(*t, index),
{
    push_timestamp(out, t);
    match index {
        None => {},
        Some(n) => {
            out.push(' ');
            out.push('(');
            push_decimal(out, n);
            out.push(')');
            assert(out@ =~= old(out)@ + format_dateline(*t, index));
        },
    }
}

} // verus!
