use vstd::prelude::*;

use crate::bindings::std_text::string_from_chars;
use crate::model::calendar::Date;
use crate::utils::numerals::{push_two_digits, two_digits};
use crate::utils::strings::strip_prefix;

verus! {

/// The prefix "收款" that receipt document numbers may carry.
pub open spec fn receipt_prefix() -> Seq<char> {
    seq!['收', '款']
}

/// The document number without a leading "收款"; unchanged when it has none.
pub open spec fn strip_receipt_prefix_seq(value: Seq<char>) -> Seq<char> {
    if receipt_prefix().is_prefix_of(value) {
        value.skip(2)
    } else {
        value
    }
}

/// Removes a leading "收款"; a value without that prefix comes back as it is.
pub fn strip_receipt_prefix(value: &str) -> (res: &str)
    ensures
        res@ == strip_receipt_prefix_seq(value@),
{
    proof {
        reveal_strlit("收款");
    }
    match strip_prefix(value, "收款") {
        Some(rest) => rest,
        None => value,
    }
}

/// A date written `yymmdd`, as chrono's `%y%m%d` writes it: the year modulo 100, the month
/// and the day, each in two digits.
pub open spec fn yymmdd(date: Date) -> Seq<char> {
    two_digits(((date.year as int) % 100) as nat) + two_digits(date.month as nat) + two_digits(
        date.day as nat,
    )
}

/// The matching document number: the date as `yymmdd` directly followed by the document
/// number without its "收款" prefix.
pub fn build_match_doc_no(date: Date, document_no: &str) -> (res: String)
    ensures
        res@ == yymmdd(date) + strip_receipt_prefix_seq(document_no@),
{
    let shifted: i64 = date.year as i64 + 2147483700;
    let year_mod: u64 = (shifted as u64) % 100;
    proof {
        let y = date.year as int;
        assert(shifted as u64 as int == y + 21474837 * 100);
        assert((y + 21474837 * 100) % 100 == y % 100) by (nonlinear_arith);
    }
    let mut out: Vec<char> = Vec::new();
    push_two_digits(year_mod, &mut out);
    push_two_digits(date.month as u64, &mut out);
    push_two_digits(date.day as u64, &mut out);
    let mut text = string_from_chars(out);
    text.append(strip_receipt_prefix(document_no));
    text
}

} // verus!
