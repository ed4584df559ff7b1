use vstd::prelude::*;

verus! {

/// Largest magnitude of a decimal's mantissa: 2^96 - 1.
pub const MAX_MANTISSA: i128 = 79228162514264337593543950335;

/// Largest number of fractional digits a decimal carries.
pub const MAX_SCALE: u32 = 28;

/// A decimal number `mantissa / 10^scale`, with the range of a 96-bit mantissa and at most 28
/// fractional digits. `==` compares the representation: `1.0` and `1.00` differ there, while
/// `same_value` holds of them.
#[derive(Clone, Copy, Debug, PartialEq, Eq, Structural)]
pub struct Decimal {
    pub mantissa: i128,
    pub scale: u32,
}

pub open spec fn pow10(n: nat) -> nat
    decreases n,
{
    if n == 0 {
        1
    } else {
        10 * pow10((n - 1) as nat)
    }
}

pub open spec fn abs_int(x: int) -> int {
    if x < 0 {
        -x
    } else {
        x
    }
}

/// `m / q` rounded to the nearest integer, ties to the even one.
pub open spec fn round_half_even(m: int, q: int) -> int
    recommends
        q > 0,
{
    let f = m / q;
    let r = m - f * q;
    if 2 * r < q {
        f
    } else if 2 * r > q {
        f + 1
    } else if f % 2 == 0 {
        f
    } else {
        f + 1
    }
}

impl Decimal {
    /// Mantissa and scale lie in the range a decimal can hold.
    pub open spec fn wf(self) -> bool {
        &&& -MAX_MANTISSA <= self.mantissa <= MAX_MANTISSA
        &&& self.scale <= MAX_SCALE
    }

    /// `self` and `other` are the same number.
    pub open spec fn same_value(self, other: Decimal) -> bool {
        self.mantissa * pow10(other.scale as nat) == other.mantissa * pow10(self.scale as nat)
    }

    /// `self` is at most `other`.
    pub open spec fn value_le(self, other: Decimal) -> bool {
        self.mantissa * pow10(other.scale as nat) <= other.mantissa * pow10(self.scale as nat)
    }

    /// Whether mantissa and scale lie in the range a decimal can hold.
    pub fn is_wf(&self) -> (b: bool)
        ensures
            b == self.wf(),
    {
        -MAX_MANTISSA <= self.mantissa && self.mantissa <= MAX_MANTISSA && self.scale <= MAX_SCALE
    }

    /// The integer `n` as a decimal without fractional digits.
    pub fn from_i64(n: i64) -> (d: Decimal)
        ensures
            d.wf(),
            d.mantissa == n,
            d.scale == 0,
    {
        Decimal { mantissa: n as i128, scale: 0 }
    }

    /// The decimal `mantissa / 10^scale`, when it is in range.
    pub fn from_parts(mantissa: i128, scale: u32) -> (d: Option<Decimal>)
        ensures
            d is Some <==> (-MAX_MANTISSA <= mantissa <= MAX_MANTISSA && scale <= MAX_SCALE),
            d matches Some(x) ==> x.mantissa == mantissa && x.scale == scale,
    {
        if -MAX_MANTISSA <= mantissa && mantissa <= MAX_MANTISSA && scale <= MAX_SCALE {
            Some(Decimal { mantissa, scale })
        } else {
            None
        }
    }

    /// -1, 0 or 1 as the number is negative, zero or positive.
    pub fn signum(&self) -> (s: i64)
        ensures
            s == (if self.mantissa > 0 {
                1int
            } else if self.mantissa == 0 {
                0int
            } else {
                -1int
            }),
    {
        if self.mantissa > 0 {
            1
        } else if self.mantissa == 0 {
            0
        } else {
            -1
        }
    }
}

/// The decimal rounded to two fractional digits, ties to even: values with at most two
/// fractional digits stay as they are.
pub open spec fn round_cents(v: Decimal) -> Decimal {
    if v.scale <= 2 {
        v
    } else {
        Decimal {
            mantissa: round_half_even(v.mantissa as int, pow10((v.scale - 2) as nat) as int) as i128,
            scale: 2,
        }
    }
}

/// `v` minus its rounding to two fractional digits, in units of `10^-scale`.
pub open spec fn cents_residual(v: Decimal) -> int {
    if v.scale <= 2 {
        0
    } else {
        v.mantissa - round_cents(v).mantissa * pow10((v.scale - 2) as nat)
    }
}

/// `v` lies within 0.000001 of its rounding to two fractional digits.
pub open spec fn within_cent_tolerance(v: Decimal) -> bool {
    abs_int(cents_residual(v)) * 1000000 <= pow10(v.scale as nat)
}

} // verus!
