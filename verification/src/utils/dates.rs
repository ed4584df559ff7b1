use vstd::prelude::*;
use vstd::string::StringSliceAdditionalSpecFns;
use vstd::utf8::is_ascii_chars;

use crate::bindings::chrono_parse::{
    naive_date_from_str, naive_datetime_from_str, naive_time_from_str, parse_naive_date,
    parse_naive_datetime, parse_naive_time,
};
use crate::model::calendar::{Date, DateTime, Time};
use crate::utils::strings::{is_ascii_digit, trim, trim_seq};
use crate::utils::utf8_ascii::{lemma_ascii_bytes_ascii_chars, lemma_ascii_text_bytes};

verus! {

/// Parses `HH:MM:SS` (24-hour clock) after trimming white space.
pub fn parse_time_text(text: &str) -> (res: Option<Time>)
    ensures
        res == naive_time_from_str(trim_seq(text@), "%H:%M:%S"@),
        res matches Some(t) ==> t.wf(),
{
    parse_naive_time(trim(text), "%H:%M:%S")
}

/// Exactly eight ASCII digits.
pub open spec fn is_eight_digits(s: Seq<char>) -> bool {
    s.len() == 8 && forall|i: int| 0 <= i < 8 ==> is_ascii_digit(#[trigger] s[i])
}

/// `yyyymmdd` read as a date: eight ASCII digits that chrono reads as `%Y%m%d`.
pub open spec fn parse_yyyymmdd_seq(text: Seq<char>) -> Option<Date> {
    if is_eight_digits(text) {
        naive_date_from_str(text, "%Y%m%d"@)
    } else {
        None
    }
}

/// Parses `yyyymmdd`: the text must be eight ASCII digits and a day of the calendar.
pub fn parse_yyyymmdd(text: &str) -> (res: Option<Date>)
    ensures
        res == parse_yyyymmdd_seq(text@),
        res matches Some(d) ==> d.wf(),
{
    let b = text.as_bytes();
    let ghost bytes = text.spec_bytes();
    let ghost chars = text@;
    let mut ok = b.len() == 8;
    let mut i: usize = 0;
    while ok && i < 8
        invariant
            b@ == bytes,
            ok ==> bytes.len() == 8,
            i <= 8,
            ok ==> forall|j: int| 0 <= j < i ==> 0x30 <= #[trigger] bytes[j] <= 0x39,
            !ok ==> (bytes.len() != 8 || exists|j: int|
                0 <= j < 8 && !(0x30 <= #[trigger] bytes[j] <= 0x39)),
        decreases 8 - i,
    {
        if !(0x30 <= b[i] && b[i] <= 0x39) {
            ok = false;
        }
        i = i + 1;
    }
    proof {
        if is_eight_digits(chars) {
            assert(is_ascii_chars(chars));
            lemma_ascii_text_bytes(chars);
            assert forall|j: int| 0 <= j < 8 implies 0x30 <= #[trigger] bytes[j] <= 0x39 by {
                assert(chars[j] as int == bytes[j] as int);
            }
        } else if ok {
            assert forall|j: int| 0 <= j < bytes.len() implies #[trigger] bytes[j] < 0x80 by {}
            lemma_ascii_bytes_ascii_chars(chars);
            lemma_ascii_text_bytes(chars);
            assert forall|j: int| 0 <= j < 8 implies is_ascii_digit(#[trigger] chars[j]) by {
                assert(chars[j] as int == bytes[j] as int);
            }
        }
    }
    if !ok {
        return None;
    }
    parse_naive_date(text, "%Y%m%d")
}

/// Date texts `yyyy-mm-dd` or `yyyy/mm/dd`, optionally with `HH:MM:SS`, after trimming; a date
/// without time is taken at midnight. The forms with time are tried first.
pub open spec fn parse_date_text_seq(text: Seq<char>) -> Option<DateTime> {
    let t = trim_seq(text);
    match naive_datetime_from_str(t, "%Y-%m-%d %H:%M:%S"@) {
        Some(dt) => Some(dt),
        None => match naive_datetime_from_str(t, "%Y/%m/%d %H:%M:%S"@) {
            Some(dt) => Some(dt),
            None => match naive_date_from_str(t, "%Y-%m-%d"@) {
                Some(d) => Some(DateTime { date: d, time: Time { hour: 0, minute: 0, second: 0 } }),
                None => match naive_date_from_str(t, "%Y/%m/%d"@) {
                    Some(d) => Some(
                        DateTime { date: d, time: Time { hour: 0, minute: 0, second: 0 } },
                    ),
                    None => None,
                },
            },
        },
    }
}

/// Parses `yyyy-mm-dd` or `yyyy/mm/dd`, with an optional `HH:MM:SS`; without a time the day
/// starts at midnight.
pub fn parse_date_text(text: &str) -> (res: Option<DateTime>)
    ensures
        res == parse_date_text_seq(text@),
        res matches Some(dt) ==> dt.wf(),
{
    let t = trim(text);
    if let Some(dt) = parse_naive_datetime(t, "%Y-%m-%d %H:%M:%S") {
        return Some(dt);
    }
    if let Some(dt) = parse_naive_datetime(t, "%Y/%m/%d %H:%M:%S") {
        return Some(dt);
    }
    if let Some(d) = parse_naive_date(t, "%Y-%m-%d") {
        return Some(d.at_midnight());
    }
    if let Some(d) = parse_naive_date(t, "%Y/%m/%d") {
        return Some(d.at_midnight());
    }
    None
}


/// Every text (after trimming) that chrono reads in one of the four accepted forms is read: one
/// written with a time, `yyyy-mm-dd HH:MM:SS` or `yyyy/mm/dd HH:MM:SS`, gives the date and time
/// that one of those two forms reads; one written as a date alone, in either form, gives some
/// date-time; and a text that no accepted form reads gives none.
pub proof fn lemma_accepted_forms_read(text: Seq<char>)
    ensures
        ({
            let t = trim_seq(text);
            let with_dash = naive_datetime_from_str(t, "%Y-%m-%d %H:%M:%S"@);
            let with_slash = naive_datetime_from_str(t, "%Y/%m/%d %H:%M:%S"@);
            let r = parse_date_text_seq(text);
            &&& (with_dash is Some || with_slash is Some) ==> r is Some && (r == with_dash || r
                == with_slash)
            &&& (naive_date_from_str(t, "%Y-%m-%d"@) is Some || naive_date_from_str(t, "%Y/%m/%d"@) is Some)
                ==> r is Some
            &&& r is Some ==> (with_dash is Some || with_slash is Some || naive_date_from_str(
                t,
                "%Y-%m-%d"@,
            ) is Some || naive_date_from_str(t, "%Y/%m/%d"@) is Some)
        }),
{
}

/// A date written alone is read at midnight of the day that chrono reads, when no form with a
/// time reads the text.
pub proof fn lemma_date_alone_at_midnight(text: Seq<char>)
    ensures
        ({
            let t = trim_seq(text);
            let r = parse_date_text_seq(text);
            (naive_datetime_from_str(t, "%Y-%m-%d %H:%M:%S"@) is None && naive_datetime_from_str(
                t,
                "%Y/%m/%d %H:%M:%S"@,
            ) is None && r is Some) ==> r->Some_0.time == Time { hour: 0, minute: 0, second: 0 }
                && (naive_date_from_str(t, "%Y-%m-%d"@) == Some(r->Some_0.date) || naive_date_from_str(
                t,
                "%Y/%m/%d"@,
            ) == Some(r->Some_0.date))
        }),
{
}

} // verus!
