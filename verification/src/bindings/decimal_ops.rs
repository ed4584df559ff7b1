use vstd::prelude::*;

use crate::model::decimal::{abs_int, pow10, round_half_even, Decimal, MAX_MANTISSA};

verus! {

/// What `rust_decimal::Decimal::from_str` makes of a text, as mantissa and scale.
pub uninterp spec fn decimal_from_str(text: Seq<char>) -> Option<(int, int)>;

/// `rust_decimal::Decimal::from_str`: parses decimal text. Its grammar is the crate's, so the
/// result is only named: a text that parses gives the decimal the name stands for, and what
/// comes back lies in the decimal range.
#[verifier::external_body]
pub(crate) fn parse_decimal(text: &str) -> (res: Option<Decimal>)
    ensures
        match res {
            Some(d) => d.wf() && decimal_from_str(text@) == Some((d.mantissa as int, d.scale as int)),
            None => decimal_from_str(text@) is None,
        },
{
    match <rust_decimal::Decimal as std::str::FromStr>::from_str(text) {
        Ok(d) => Some(Decimal { mantissa: d.mantissa(), scale: d.scale() }),
        Err(_) => None,
    }
}

/// `rust_decimal::Decimal::round_dp`: rounds to `dp` fractional digits with ties to even; a
/// value with at most `dp` fractional digits comes back unchanged.
#[verifier::external_body]
pub(crate) fn decimal_round_dp(d: Decimal, dp: u32) -> (res: Decimal)
    requires
        d.wf(),
    ensures
        res.wf(),
        d.scale <= dp ==> res == d,
        d.scale > dp ==> res.scale == dp && res.mantissa == round_half_even(
            d.mantissa as int,
            pow10((d.scale - dp) as nat) as int,
        ),
{
    let r = rust_decimal::Decimal::from_i128_with_scale(d.mantissa, d.scale).round_dp(dp);
    Decimal { mantissa: r.mantissa(), scale: r.scale() }
}

/// `rust_decimal::Decimal` subtraction, for operands whose exact difference fits in a
/// 96-bit mantissa at the larger of their scales: then the difference is exact.
#[verifier::external_body]
pub(crate) fn decimal_sub(a: Decimal, b: Decimal) -> (res: Decimal)
    requires
        a.wf(),
        b.wf(),
        a.scale >= b.scale ==> abs_int(
            a.mantissa - b.mantissa * pow10((a.scale - b.scale) as nat),
        ) <= MAX_MANTISSA,
        a.scale < b.scale ==> abs_int(
            a.mantissa * pow10((b.scale - a.scale) as nat) - b.mantissa,
        ) <= MAX_MANTISSA,
    ensures
        res.wf(),
        res.mantissa * pow10(a.scale as nat) * pow10(b.scale as nat) == (a.mantissa * pow10(
            b.scale as nat,
        ) - b.mantissa * pow10(a.scale as nat)) * pow10(res.scale as nat),
{
    let r = rust_decimal::Decimal::from_i128_with_scale(a.mantissa, a.scale)
        - rust_decimal::Decimal::from_i128_with_scale(b.mantissa, b.scale);
    Decimal { mantissa: r.mantissa(), scale: r.scale() }
}

/// `rust_decimal::Decimal::abs`: the magnitude, at the same scale.
#[verifier::external_body]
pub(crate) fn decimal_abs(d: Decimal) -> (res: Decimal)
    requires
        d.wf(),
    ensures
        res.wf(),
        res.mantissa == abs_int(d.mantissa as int),
        res.scale == d.scale,
{
    let r = rust_decimal::Decimal::from_i128_with_scale(d.mantissa, d.scale).abs();
    Decimal { mantissa: r.mantissa(), scale: r.scale() }
}

/// `<=` on `rust_decimal::Decimal`: compares the numbers the two decimals stand for.
#[verifier::external_body]
pub(crate) fn decimal_le(a: Decimal, b: Decimal) -> (res: bool)
    requires
        a.wf(),
        b.wf(),
    ensures
        res == a.value_le(b),
{
    rust_decimal::Decimal::from_i128_with_scale(a.mantissa, a.scale)
        <= rust_decimal::Decimal::from_i128_with_scale(b.mantissa, b.scale)
}

} // verus!
