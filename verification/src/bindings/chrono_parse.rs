use vstd::prelude::*;
use chrono::{Datelike, Timelike};

use crate::model::calendar::{Date, DateTime, Time};

verus! {

/// What `chrono::NaiveDate::parse_from_str(text, format)` gives, as a calendar date.
pub uninterp spec fn naive_date_from_str(text: Seq<char>, format: Seq<char>) -> Option<Date>;

/// What `chrono::NaiveDateTime::parse_from_str(text, format)` gives, to the second.
pub uninterp spec fn naive_datetime_from_str(text: Seq<char>, format: Seq<char>) -> Option<
    DateTime,
>;

/// What `chrono::NaiveTime::parse_from_str(text, format)` gives, to the second.
pub uninterp spec fn naive_time_from_str(text: Seq<char>, format: Seq<char>) -> Option<Time>;

/// `chrono::NaiveDate::parse_from_str`: the result is named after text and format; a date that
/// chrono accepts always exists in the calendar.
#[verifier::external_body]
pub(crate) fn parse_naive_date(text: &str, format: &str) -> (res: Option<Date>)
    ensures
        res == naive_date_from_str(text@, format@),
        res matches Some(d) ==> d.wf(),
{
    match chrono::NaiveDate::parse_from_str(text, format) {
        Ok(d) => Some(Date { year: d.year(), month: d.month(), day: d.day() }),
        Err(_) => None,
    }
}

/// `chrono::NaiveDateTime::parse_from_str`, taken to the second: the result is named after
/// text and format; chrono only gives dates and times that exist.
#[verifier::external_body]
pub(crate) fn parse_naive_datetime(text: &str, format: &str) -> (res: Option<DateTime>)
    ensures
        res == naive_datetime_from_str(text@, format@),
        res matches Some(d) ==> d.wf(),
{
    match chrono::NaiveDateTime::parse_from_str(text, format) {
        Ok(d) => {
            let date = Date { year: d.year(), month: d.month(), day: d.day() };
            let time = Time { hour: d.hour(), minute: d.minute(), second: d.second() };
            Some(DateTime { date, time })
        },
        Err(_) => None,
    }
}

/// `chrono::NaiveTime::parse_from_str`, taken to the second: the result is named after text
/// and format; chrono only gives times that exist.
#[verifier::external_body]
pub(crate) fn parse_naive_time(text: &str, format: &str) -> (res: Option<Time>)
    ensures
        res == naive_time_from_str(text@, format@),
        res matches Some(t) ==> t.wf(),
{
    match chrono::NaiveTime::parse_from_str(text, format) {
        Ok(t) => Some(Time { hour: t.hour(), minute: t.minute(), second: t.second() }),
        Err(_) => None,
    }
}

} // verus!
