use vstd::prelude::*;

use crate::model::calendar::{Date, DateTime, Time};
use crate::model::decimal::Decimal;

verus! {

/// An output cell value; each cell carries its own type, so a column may hold `Empty` beside
/// values of the column's type (and, in one column, numbers beside the text `-`).
#[derive(Clone, Debug, PartialEq)]
pub enum Value {
    Empty,
    Text(String),
    Decimal(Decimal),
    Integer(i64),
    Ratio(Decimal),
    Date(Date),
    Time(Time),
    DateTime(DateTime),
}

/// A cell value with its text as characters.
pub enum ValueView {
    Empty,
    Text(Seq<char>),
    Decimal(Decimal),
    Integer(i64),
    Ratio(Decimal),
    Date(Date),
    Time(Time),
    DateTime(DateTime),
}

impl View for Value {
    type V = ValueView;

    open spec fn view(&self) -> ValueView {
        match self {
            Value::Empty => ValueView::Empty,
            Value::Text(s) => ValueView::Text(s@),
            Value::Decimal(d) => ValueView::Decimal(*d),
            Value::Integer(n) => ValueView::Integer(*n),
            Value::Ratio(d) => ValueView::Ratio(*d),
            Value::Date(d) => ValueView::Date(*d),
            Value::Time(t) => ValueView::Time(*t),
            Value::DateTime(dt) => ValueView::DateTime(*dt),
        }
    }
}

impl Value {
    /// A copy of the value.
    pub fn copied(&self) -> (res: Value)
        ensures
            res == *self,
    {
        match self {
            Value::Empty => Value::Empty,
            Value::Text(s) => Value::Text(s.clone()),
            Value::Decimal(d) => Value::Decimal(*d),
            Value::Integer(n) => Value::Integer(*n),
            Value::Ratio(d) => Value::Ratio(*d),
            Value::Date(d) => Value::Date(*d),
            Value::Time(t) => Value::Time(*t),
            Value::DateTime(dt) => Value::DateTime(*dt),
        }
    }
}

/// Empty text is the empty value, any other text a text value.
pub open spec fn text_value_view(t: Seq<char>) -> ValueView {
    if t.len() == 0 {
        ValueView::Empty
    } else {
        ValueView::Text(t)
    }
}

} // verus!
