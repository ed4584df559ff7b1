use vstd::prelude::*;

use crate::bindings::decimal_ops::{decimal_abs, decimal_le, decimal_round_dp, decimal_sub};
use crate::model::decimal::{
    abs_int, cents_residual, pow10, round_cents, round_half_even, within_cent_tolerance, Decimal,
};

verus! {

pub proof fn lemma_pow10_positive(n: nat)
    ensures
        pow10(n) >= 1,
    decreases n,
{
    if n > 0 {
        lemma_pow10_positive((n - 1) as nat);
    }
}

pub proof fn lemma_pow10_add(a: nat, b: nat)
    ensures
        pow10(a + b) == pow10(a) * pow10(b),
    decreases a,
{
    if a > 0 {
        let a1 = (a - 1) as nat;
        lemma_pow10_add(a1, b);
        assert((a + b) as nat == (a1 + b + 1) as nat);
        assert(pow10(a1 + b + 1) == 10 * pow10(a1 + b));
        assert(pow10(a) == 10 * pow10(a1));
        assert(10 * (pow10(a1) * pow10(b)) == (10 * pow10(a1)) * pow10(b)) by (nonlinear_arith);
    } else {
        assert(pow10(0) == 1);
        assert(a + b == b);
    }
}

pub proof fn lemma_pow10_monotone(a: nat, b: nat)
    requires
        a <= b,
    ensures
        pow10(a) <= pow10(b),
    decreases b,
{
    if a < b {
        lemma_pow10_monotone(a, (b - 1) as nat);
        lemma_pow10_positive((b - 1) as nat);
    }
}

/// Rounding to a multiple of `q` moves a number by at most `q`.
proof fn lemma_round_half_even_close(m: int, q: int)
    requires
        q > 0,
    ensures
        abs_int(m - round_half_even(m, q) * q) <= q,
{
    let f = m / q;
    let r = m - f * q;
    assert(0 <= r < q) by (nonlinear_arith)
        requires
            q > 0,
            f == m / q,
            r == m - f * q,
    ;
    assert((f + 1) * q == f * q + q) by (nonlinear_arith);
}

proof fn lemma_scaled_tolerance(x: int, p: int, y: int, q: int)
    requires
        p > 0,
        q > 0,
        x * p == y * q,
    ensures
        (abs_int(x) * 1000000 <= q) == (abs_int(y) * 1000000 <= p),
{
    assert(abs_int(x) * p == abs_int(y) * q) by (nonlinear_arith)
        requires
            x * p == y * q,
            p > 0,
            q > 0,
    ;
    assert((abs_int(x) * 1000000 <= q) == (abs_int(x) * 1000000 * p <= q * p)) by (nonlinear_arith)
        requires
            p > 0,
    ;
    assert((abs_int(y) * 1000000 <= p) == (abs_int(y) * 1000000 * q <= p * q)) by (nonlinear_arith)
        requires
            q > 0,
    ;
    assert(abs_int(x) * 1000000 * p == abs_int(y) * 1000000 * q) by (nonlinear_arith)
        requires
            abs_int(x) * p == abs_int(y) * q,
    ;
    assert(q * p == p * q) by (nonlinear_arith);
}

/// The rule for floating-point residue: an amount within 0.000001 of its nearest two-digit
/// value (ties to even) becomes that value; anything further off gives `None`, for the caller
/// to report as a data error.
pub fn to_cents(value: Decimal) -> (res: Option<Decimal>)
    requires
        value.wf(),
    ensures
        res == (if within_cent_tolerance(value) {
            Some(round_cents(value))
        } else {
            None
        }),
{
    let rounded = decimal_round_dp(value, 2);
    let tolerance = Decimal { mantissa: 1, scale: 6 };
    let s = value.scale;
    proof {
        lemma_pow10_positive(s as nat);
        if s <= 2 {
            assert(rounded == value);
            assert(pow10(0) == 1);
            assert(value.mantissa - rounded.mantissa * pow10(0) == 0);
        } else {
            let q = pow10((s - 2) as nat) as int;
            lemma_pow10_positive((s - 2) as nat);
            lemma_round_half_even_close(value.mantissa as int, q);
            lemma_pow10_monotone((s - 2) as nat, 26);
            reveal_with_fuel(pow10, 27);
            assert(pow10(26) == 100000000000000000000000000);
            assert(rounded == round_cents(value));
        }
    }
    let diff = decimal_sub(value, rounded);
    let magnitude = decimal_abs(diff);
    let ok = decimal_le(magnitude, tolerance);
    proof {
        let ds = diff.scale as nat;
        lemma_pow10_positive(ds);
        reveal_with_fuel(pow10, 7);
        assert(pow10(6) == 1000000);
        assert(magnitude.mantissa == abs_int(diff.mantissa as int));
        assert(ok == (abs_int(diff.mantissa as int) * 1000000 <= pow10(ds)));
        if s <= 2 {
            let p = pow10(s as nat) as int;
            assert(diff.mantissa * p * p == 0);
            assert(diff.mantissa == 0) by (nonlinear_arith)
                requires
                    diff.mantissa * p * p == 0,
                    p >= 1,
            ;
            assert(cents_residual(value) == 0);
            assert(ok);
            assert(within_cent_tolerance(value));
        } else {
            let q = pow10((s - 2) as nat) as int;
            let p = pow10(s as nat) as int;
            let n = rounded.mantissa as int;
            let m = value.mantissa as int;
            let d = diff.mantissa as int;
            let e = pow10(ds) as int;
            lemma_pow10_add((s - 2) as nat, 2);
            reveal_with_fuel(pow10, 3);
            assert(pow10(2) == 100);
            assert(p == q * 100);
            let res = m - n * q;
            assert(res == cents_residual(value));
            assert(d * p * 100 == (m * 100 - n * p) * e);
            assert(m * 100 - n * p == 100 * res) by (nonlinear_arith)
                requires
                    p == q * 100,
                    res == m - n * q,
            ;
            assert(d * p == res * e) by (nonlinear_arith)
                requires
                    d * p * 100 == (100 * res) * e,
            ;
            lemma_scaled_tolerance(d, p, res, e);
            assert(ok == within_cent_tolerance(value));
        }
    }
    if ok {
        Some(rounded)
    } else {
        None
    }
}


/// The cent rule is stable: an amount it accepts becomes one it accepts again and leaves as it
/// is, so applying it twice gives what applying it once gave.
pub proof fn lemma_to_cents_idempotent(value: Decimal)
    requires
        within_cent_tolerance(value),
    ensures
        within_cent_tolerance(round_cents(value)),
        round_cents(round_cents(value)) == round_cents(value),
{
    let r = round_cents(value);
    assert(r.scale <= 2);
    assert(cents_residual(r) == 0);
    lemma_pow10_positive(r.scale as nat);
}

} // verus!
