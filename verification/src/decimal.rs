//! A plain-value picture of a `rust_decimal::Decimal` and the arithmetic on it.
//!
//! A decimal is `mantissa / 10^scale` with a 96-bit mantissa, a scale of at most
//! 28 and a separate sign bit (so that a negative zero can be told apart, as
//! `rust_decimal` does). Its exact value is measured in units of `10^-28`
//! (`Dec::units`), which makes every decimal an integer number of units.
//!
//! The arithmetic itself is done by `rust_decimal`: each operation goes through a
//! small trusted wrapper that turns the plain parts into a `Decimal`, performs the
//! operation and hands the parts of the result back.
use vstd::prelude::*;

verus! {

/// `10^n`.
pub open spec fn pow10(n: nat) -> nat
    decreases n,
{
    if n == 0 {
        1
    } else {
        10 * pow10((n - 1) as nat)
    }
}

/// `2^96`: every mantissa lies strictly between `-2^96` and `2^96`.
pub open spec fn mantissa_limit() -> int {
    79228162514264337593543950336
}

/// One whole unit of value, in units of `10^-28`.
pub open spec fn one_units() -> int {
    10000000000000000000000000000
}

/// The largest magnitude a decimal can hold (`Decimal::MAX`), in units of `10^-28`.
pub open spec fn max_units() -> int {
    (mantissa_limit() - 1) * one_units()
}

pub open spec fn abs(x: int) -> int {
    if x < 0 {
        -x
    } else {
        x
    }
}

/// The number of units in one step of the last decimal place at `scale`.
pub open spec fn ulp(scale: nat) -> int {
    pow10((28 - scale) as nat) as int
}

/// The exact value `v` (in units) can be written with a 96-bit mantissa at `scale`,
/// given that it is a whole number of steps at that scale.
pub open spec fn fits_at(v: int, scale: nat) -> bool {
    abs(v) < mantissa_limit() * ulp(scale)
}

/// `approx` is within a relative error of `10^-25` (plus one unit) of `exact`.
pub open spec fn close_to(approx: int, exact: int) -> bool {
    abs(approx - exact) * pow10(25) <= abs(exact) + pow10(25)
}

/// A decimal number held as plain parts, as `rust_decimal::Decimal` holds it.
#[derive(Clone, Copy, Debug)]
pub struct Dec {
    /// The signed mantissa (what `Decimal::mantissa` returns).
    pub mantissa: i128,
    /// The number of decimal places, at most 28.
    pub scale: u32,
    /// The sign bit; it is also set for a negative zero.
    pub negative: bool,
}

impl Dec {
    /// The parts describe a valid `rust_decimal::Decimal`.
    pub open spec fn wf(self) -> bool {
        &&& -mantissa_limit() < self.mantissa < mantissa_limit()
        &&& self.scale <= 28
        &&& self.mantissa < 0 ==> self.negative
        &&& self.mantissa > 0 ==> !self.negative
    }

    /// The exact value, in units of `10^-28`.
    pub open spec fn units(self) -> int {
        self.mantissa * ulp(self.scale as nat)
    }

    pub open spec fn spec_zero() -> Dec {
        Dec { mantissa: 0, scale: 0, negative: false }
    }

    /// `Decimal::ZERO`.
    pub fn zero() -> (r: Dec)
        ensures
            r == Dec::spec_zero(),
            r.wf(),
    {
        Dec { mantissa: 0, scale: 0, negative: false }
    }

    /// `Decimal::ONE`.
    pub fn one() -> (r: Dec)
        ensures
            r == (Dec { mantissa: 1, scale: 0, negative: false }),
            r.wf(),
            r.units() == one_units(),
    {
        proof {
            lemma_pow10_values();
        }
        Dec { mantissa: 1, scale: 0, negative: false }
    }

    /// `Decimal::new(num, scale)`: the value `num / 10^scale`.
    pub fn new(num: i64, scale: u32) -> (r: Dec)
        requires
            scale <= 28,
        ensures
            r.mantissa == num,
            r.scale == scale,
            r.negative == (num < 0),
            r.wf(),
    {
        Dec { mantissa: num as i128, scale, negative: num < 0 }
    }

    /// Builds a decimal from its parts; `None` when they do not describe one.
    pub fn from_parts(mantissa: i128, scale: u32, negative: bool) -> (r: Option<Dec>)
        ensures
            r is Some <==> (Dec { mantissa, scale, negative }).wf(),
            r is Some ==> r->0 == (Dec { mantissa, scale, negative }),
    {
        let limit: i128 = 79228162514264337593543950336;
        if -limit < mantissa && mantissa < limit && scale <= 28 && (mantissa >= 0 || negative)
            && (mantissa <= 0 || !negative) {
            Some(Dec { mantissa, scale, negative })
        } else {
            None
        }
    }

    /// What `Decimal::from(i32)` returns.
    pub open spec fn spec_from_i32(v: i32) -> Dec {
        Dec { mantissa: v as i128, scale: 0, negative: v < 0 }
    }

    /// `Decimal::from(i32)`.
    pub fn from_i32(v: i32) -> (r: Dec)
        ensures
            r == Dec::spec_from_i32(v),
            r.mantissa == v,
            r.scale == 0,
            r.negative == (v < 0),
            r.wf(),
    {
        Dec { mantissa: v as i128, scale: 0, negative: v < 0 }
    }

    /// `Decimal::from(usize)`.
    pub fn from_usize(v: usize) -> (r: Dec)
        ensures
            r.mantissa == v,
            r.scale == 0,
            !r.negative,
            r.wf(),
    {
        proof {
            assert(v <= u64::MAX);
        }
        Dec { mantissa: v as i128, scale: 0, negative: false }
    }

    /// `Decimal::is_sign_negative`: the sign bit.
    pub fn is_sign_negative(&self) -> (r: bool)
        ensures
            r == self.negative,
    {
        self.negative
    }

    /// `Decimal::abs`: the same magnitude and scale with the sign bit cleared.
    pub fn abs(&self) -> (r: Dec)
        requires
            self.wf(),
        ensures
            r.wf(),
            r.scale == self.scale,
            r.mantissa == abs(self.mantissa as int),
            !r.negative,
            r.units() == abs(self.units()),
    {
        let m = if self.mantissa < 0 {
            -self.mantissa
        } else {
            self.mantissa
        };
        proof {
            lemma_pow10_positive((28 - self.scale) as nat);
            if self.mantissa < 0 {
                assert(self.units() == self.mantissa * ulp(self.scale as nat));
                assert(-self.units() == (-self.mantissa) * ulp(self.scale as nat))
                    by (nonlinear_arith);
                assert(self.units() < 0) by (nonlinear_arith)
                    requires
                        self.mantissa < 0,
                        ulp(self.scale as nat) > 0,
                        self.units() == self.mantissa * ulp(self.scale as nat),
                ;
            } else {
                assert(self.units() >= 0) by (nonlinear_arith)
                    requires
                        self.mantissa >= 0,
                        ulp(self.scale as nat) > 0,
                        self.units() == self.mantissa * ulp(self.scale as nat),
                ;
            }
        }
        Dec { mantissa: m, scale: self.scale, negative: false }
    }
}

/// What `Decimal + Decimal` returns for two decimals.
pub uninterp spec fn decimal_add(a: Dec, b: Dec) -> Dec;

/// What `Decimal - Decimal` returns for two decimals.
pub uninterp spec fn decimal_sub(a: Dec, b: Dec) -> Dec;

/// What `Decimal * Decimal` returns for two decimals.
pub uninterp spec fn decimal_mul(a: Dec, b: Dec) -> Dec;

/// What `Decimal / Decimal` returns for two decimals.
pub uninterp spec fn decimal_div(a: Dec, b: Dec) -> Dec;

/// `a * b` is computed exactly: the scales add up to at most 28 and the product of the
/// mantissas fits in 96 bits.
pub open spec fn mul_is_exact(a: Dec, b: Dec) -> bool {
    &&& a.scale + b.scale <= 28
    &&& abs(a.mantissa * b.mantissa) < mantissa_limit()
}

/// The greater of two scales.
pub open spec fn max_scale(a: Dec, b: Dec) -> nat {
    if a.scale >= b.scale {
        a.scale as nat
    } else {
        b.scale as nat
    }
}

/// `x / 10^k` rounded toward zero, for a signed `x`.
pub open spec fn div_toward_zero(x: int, k: nat) -> int {
    if x < 0 {
        -((-x) / (pow10(k) as int))
    } else {
        x / (pow10(k) as int)
    }
}

/// What `Decimal::round_dp_with_strategy(dp, RoundingStrategy::ToZero)` returns.
pub open spec fn round_dp_to_zero(a: Dec, dp: nat) -> Dec {
    if a.scale <= dp {
        a
    } else {
        let m = div_toward_zero(a.mantissa as int, (a.scale - dp) as nat);
        Dec {
            mantissa: m as i128,
            scale: dp as u32,
            negative: a.negative && (a.mantissa == 0 || m != 0),
        }
    }
}

/// What `Decimal::trunc` returns: the integral part, keeping the sign bit.
pub open spec fn trunc(a: Dec) -> Dec {
    Dec {
        mantissa: div_toward_zero(a.mantissa as int, a.scale as nat) as i128,
        scale: 0,
        negative: a.negative,
    }
}

/// What `ToPrimitive::to_usize` returns for a decimal: nothing when the sign bit is
/// set or the integral part does not fit in a `u64` and a `usize`.
pub open spec fn to_usize(a: Dec) -> Option<usize> {
    let t = trunc(a).mantissa as int;
    if a.negative || t > u64::MAX || t > usize::MAX {
        None
    } else {
        Some(t as usize)
    }
}

/// The exact value `v` (in units) can be written with a 96-bit mantissa at some
/// scale of at most `m`.
pub open spec fn representable(v: int, m: nat) -> bool {
    exists|s: nat| #![trigger ulp(s)] s <= m && v % ulp(s) == 0 && abs(v) < mantissa_limit() * ulp(s)
}

/// `a + b` on `rust_decimal::Decimal`. `rust_decimal` panics when the sum does not
/// fit, which the bound on the exact sum rules out. It aligns both operands at the
/// larger scale and, when the sum then needs more than 96 bits, drops as few
/// trailing digits as it must, rounding. The contract claims: the result is
/// `decimal_add(a, b)`; its scale is at most the larger scale; it is exact whenever
/// the exact sum can be written with a 96-bit mantissa at some scale up to the larger
/// one; otherwise it is the exact sum rounded, within a relative error of `10^-25`
/// (plus one unit of `10^-28`); its value does not depend on the order of the
/// operands; the sum of two decimals without the sign bit has no sign bit. The sign
/// bit of a zero sum is not stated.
#[verifier::external_body]
pub(crate) fn dec_add(a: Dec, b: Dec) -> (r: Dec)
    requires
        a.wf(),
        b.wf(),
        abs(a.units() + b.units()) <= max_units(),
    ensures
        r == decimal_add(a, b),
        r.wf(),
        fits_at(a.units() + b.units(), max_scale(a, b)) ==> r.units() == a.units() + b.units()
            && r.scale <= max_scale(a, b),
        representable(a.units() + b.units(), max_scale(a, b)) ==> r.units() == a.units()
            + b.units(),
        r.scale <= max_scale(a, b),
        close_to(r.units(), a.units() + b.units()),
        !a.negative && !b.negative ==> !r.negative,
        r.units() == decimal_add(b, a).units(),
{
    let mut x = rust_decimal::Decimal::from_i128_with_scale(a.mantissa, a.scale);
    x.set_sign_negative(a.negative);
    let mut y = rust_decimal::Decimal::from_i128_with_scale(b.mantissa, b.scale);
    y.set_sign_negative(b.negative);
    let z = x + y;
    Dec { mantissa: z.mantissa(), scale: z.scale(), negative: z.is_sign_negative() }
}

/// `a - b` on `rust_decimal::Decimal`. `rust_decimal` panics when the difference
/// does not fit, which the bound on the exact difference rules out. The contract
/// claims: the result is `decimal_sub(a, b)`; its scale is at most the larger scale;
/// it is exact whenever the exact difference can be written with a 96-bit mantissa
/// at some scale up to the larger one; otherwise it is the exact difference rounded,
/// within a relative error of `10^-25` (plus one unit of `10^-28`). The sign bit of
/// a zero result is not stated.
#[verifier::external_body]
pub(crate) fn dec_sub(a: Dec, b: Dec) -> (r: Dec)
    requires
        a.wf(),
        b.wf(),
        abs(a.units() - b.units()) <= max_units(),
    ensures
        r == decimal_sub(a, b),
        r.wf(),
        fits_at(a.units() - b.units(), max_scale(a, b)) ==> r.units() == a.units() - b.units()
            && r.scale <= max_scale(a, b),
        representable(a.units() - b.units(), max_scale(a, b)) ==> r.units() == a.units()
            - b.units(),
        r.scale <= max_scale(a, b),
        close_to(r.units(), a.units() - b.units()),
{
    let mut x = rust_decimal::Decimal::from_i128_with_scale(a.mantissa, a.scale);
    x.set_sign_negative(a.negative);
    let mut y = rust_decimal::Decimal::from_i128_with_scale(b.mantissa, b.scale);
    y.set_sign_negative(b.negative);
    let z = x - y;
    Dec { mantissa: z.mantissa(), scale: z.scale(), negative: z.is_sign_negative() }
}

/// `a * b` on `rust_decimal::Decimal`. `rust_decimal` panics when the product does
/// not fit, which the bound on the exact product rules out. The contract claims: the
/// result is `decimal_mul(a, b)`; it is exact, at no more than the sum of the scales,
/// when that sum is at most 28 and the product of the mantissas fits in 96 bits;
/// otherwise it is the exact product rounded, within a relative error of `10^-25`
/// (plus one unit of `10^-28`); its value depends only on the values of the operands
/// (the exact product is kept, or rounded half to even at the largest scale up to 28
/// at which it fits, whatever scales the operands were written at). The scale of an
/// inexact result and the sign bit of a zero result are not stated.
#[verifier::external_body]
pub(crate) fn dec_mul(a: Dec, b: Dec) -> (r: Dec)
    requires
        a.wf(),
        b.wf(),
        abs(a.units() * b.units()) <= max_units() * one_units(),
    ensures
        r == decimal_mul(a, b),
        r.wf(),
        mul_is_exact(a, b) ==> r.units() * one_units() == a.units() * b.units() && r.scale
            <= a.scale + b.scale,
        abs(r.units() * one_units() - a.units() * b.units()) * pow10(25) <= abs(
            a.units() * b.units(),
        ) + pow10(25) * one_units(),
        forall|a2: Dec, b2: Dec|
            #![trigger decimal_mul(a2, b2)]
            a2.wf() && b2.wf() && a2.units() == a.units() && b2.units() == b.units()
                ==> decimal_mul(a2, b2).units() == r.units(),
{
    let mut x = rust_decimal::Decimal::from_i128_with_scale(a.mantissa, a.scale);
    x.set_sign_negative(a.negative);
    let mut y = rust_decimal::Decimal::from_i128_with_scale(b.mantissa, b.scale);
    y.set_sign_negative(b.negative);
    let z = x * y;
    Dec { mantissa: z.mantissa(), scale: z.scale(), negative: z.is_sign_negative() }
}

/// `a / b` on `rust_decimal::Decimal`. `rust_decimal` panics on a zero divisor and
/// when the quotient does not fit, which the requirements rule out. The contract
/// claims: the result is `decimal_div(a, b)`; a zero dividend gives zero; a
/// quotient that can be written with a 96-bit mantissa at a scale of at most 28 is
/// exact (`rust_decimal` keeps dividing the remainder until it is zero or no further
/// digit fits); otherwise the quotient is rounded, within a relative error of
/// `10^-25` (plus one unit of `10^-28`) of the exact one. The scale and sign bit of
/// the result are not stated.
#[verifier::external_body]
pub(crate) fn dec_div(a: Dec, b: Dec) -> (r: Dec)
    requires
        a.wf(),
        b.wf(),
        b.units() != 0,
        abs(a.units()) * one_units() <= max_units() * abs(b.units()),
    ensures
        r == decimal_div(a, b),
        r.wf(),
        a.units() == 0 ==> r.units() == 0,
        a.units() % b.units() == 0 && abs(a.units() / b.units()) < 0x1_0000_0000_0000_0000
            ==> r.units() == (a.units() / b.units()) * one_units(),
        (a.units() * one_units()) % b.units() == 0 && representable(
            (a.units() * one_units()) / b.units(),
            28,
        ) ==> r.units() == (a.units() * one_units()) / b.units(),
        abs(r.units() * b.units() - a.units() * one_units()) * pow10(25) <= abs(
            a.units() * one_units(),
        ) + pow10(25) * abs(b.units()),
{
    let mut x = rust_decimal::Decimal::from_i128_with_scale(a.mantissa, a.scale);
    x.set_sign_negative(a.negative);
    let mut y = rust_decimal::Decimal::from_i128_with_scale(b.mantissa, b.scale);
    y.set_sign_negative(b.negative);
    let z = x / y;
    Dec { mantissa: z.mantissa(), scale: z.scale(), negative: z.is_sign_negative() }
}

/// `Decimal::round_dp_with_strategy(dp, RoundingStrategy::ToZero)`: drops the
/// digits beyond `dp` decimal places, keeping the sign bit unless the result is a
/// zero made from a non-zero value; a decimal with at most `dp` places comes back
/// unchanged.
#[verifier::external_body]
pub(crate) fn dec_round_dp_to_zero(a: Dec, dp: u32) -> (r: Dec)
    requires
        a.wf(),
    ensures
        r == round_dp_to_zero(a, dp as nat),
{
    let mut x = rust_decimal::Decimal::from_i128_with_scale(a.mantissa, a.scale);
    x.set_sign_negative(a.negative);
    let z = x.round_dp_with_strategy(dp, rust_decimal::RoundingStrategy::ToZero);
    Dec { mantissa: z.mantissa(), scale: z.scale(), negative: z.is_sign_negative() }
}

/// `Decimal::trunc`: the integral part at scale 0, keeping the sign bit.
#[verifier::external_body]
pub(crate) fn dec_trunc(a: Dec) -> (r: Dec)
    requires
        a.wf(),
    ensures
        r == trunc(a),
{
    let mut x = rust_decimal::Decimal::from_i128_with_scale(a.mantissa, a.scale);
    x.set_sign_negative(a.negative);
    let z = x.trunc();
    Dec { mantissa: z.mantissa(), scale: z.scale(), negative: z.is_sign_negative() }
}

/// `ToPrimitive::to_usize` on a `Decimal`: `None` when the sign bit is set, else the
/// integral part when it fits in a `u64` and a `usize`.
#[verifier::external_body]
pub(crate) fn dec_to_usize(a: Dec) -> (r: Option<usize>)
    requires
        a.wf(),
    ensures
        r == to_usize(a),
{
    let mut x = rust_decimal::Decimal::from_i128_with_scale(a.mantissa, a.scale);
    x.set_sign_negative(a.negative);
    rust_decimal::prelude::ToPrimitive::to_usize(&x)
}

/// `Decimal == Decimal`: equal values, whatever the scales and the sign bit of a zero.
#[verifier::external_body]
pub(crate) fn dec_eq(a: Dec, b: Dec) -> (r: bool)
    requires
        a.wf(),
        b.wf(),
    ensures
        r == (a.units() == b.units()),
{
    let mut x = rust_decimal::Decimal::from_i128_with_scale(a.mantissa, a.scale);
    x.set_sign_negative(a.negative);
    let mut y = rust_decimal::Decimal::from_i128_with_scale(b.mantissa, b.scale);
    y.set_sign_negative(b.negative);
    x == y
}

/// `Decimal > Decimal`: compares the values.
#[verifier::external_body]
pub(crate) fn dec_gt(a: Dec, b: Dec) -> (r: bool)
    requires
        a.wf(),
        b.wf(),
    ensures
        r == (a.units() > b.units()),
{
    let mut x = rust_decimal::Decimal::from_i128_with_scale(a.mantissa, a.scale);
    x.set_sign_negative(a.negative);
    let mut y = rust_decimal::Decimal::from_i128_with_scale(b.mantissa, b.scale);
    y.set_sign_negative(b.negative);
    x > y
}

/// The character of a decimal digit.
pub open spec fn digit_char(d: nat) -> char {
    seq!['0', '1', '2', '3', '4', '5', '6', '7', '8', '9'][d as int]
}

/// The decimal digits of `m`, most significant first; none for zero.
pub open spec fn digits(m: nat) -> Seq<char>
    decreases m,
{
    if m == 0 {
        Seq::empty()
    } else {
        digits(m / 10).push(digit_char(m % 10))
    }
}

/// `k` zero digits.
pub open spec fn zeros(k: nat) -> Seq<char> {
    Seq::new(k, |_i: int| '0')
}

/// The digits of the mantissa, with zeros in front so that there are at least as
/// many as the scale.
pub open spec fn padded_digits(d: Dec) -> Seq<char> {
    let ds = digits(abs(d.mantissa as int) as nat);
    if ds.len() < d.scale {
        zeros((d.scale - ds.len()) as nat) + ds
    } else {
        ds
    }
}

/// A minus sign when the sign bit is set (also for a negative zero).
pub open spec fn sign_text(d: Dec) -> Seq<char> {
    if d.negative {
        seq!['-']
    } else {
        Seq::empty()
    }
}

/// The digits before the point: those beyond the scale, or `0` when there are none.
pub open spec fn whole_text(d: Dec) -> Seq<char> {
    let ds = padded_digits(d);
    let w = ds.len() - d.scale;
    if w == 0 {
        seq!['0']
    } else {
        ds.subrange(0, w)
    }
}

/// The digits after the point: the last `scale` ones.
pub open spec fn fraction_digits(d: Dec) -> Seq<char> {
    let ds = padded_digits(d);
    ds.subrange(ds.len() - d.scale, ds.len() as int)
}

/// What `format!("{}", d)` writes for a decimal: the sign, the whole digits, and,
/// when the scale is not zero, a point and as many digits after it as the scale.
pub open spec fn decimal_text(d: Dec) -> Seq<char> {
    if d.scale == 0 {
        sign_text(d) + whole_text(d)
    } else {
        sign_text(d) + whole_text(d) + seq!['.'] + fraction_digits(d)
    }
}

/// What `format!("{:.3}", d)` writes for a decimal: the sign, the whole digits, a
/// point and the first three digits after it (zeros where there are fewer).
pub open spec fn decimal_text_3(d: Dec) -> Seq<char> {
    sign_text(d) + whole_text(d) + seq!['.'] + (fraction_digits(d) + zeros(3)).subrange(0, 3)
}

/// `format!("{}", d)` on a `Decimal` (`Display`, which writes the digits of the
/// mantissa with the point placed by the scale, and a minus sign when the sign bit
/// is set). The contract states that text.
#[verifier::external_body]
pub(crate) fn dec_format(a: Dec) -> (r: String)
    requires
        a.wf(),
    ensures
        r@ == decimal_text(a),
{
    let mut x = rust_decimal::Decimal::from_i128_with_scale(a.mantissa, a.scale);
    x.set_sign_negative(a.negative);
    format!("{}", x)
}

/// `format!("{:.3}", d)` on a `Decimal`: `Display` with a precision of three, which
/// keeps exactly three digits after the point, cutting further ones off rather than
/// rounding and filling missing ones with zeros. The contract states that text.
#[verifier::external_body]
pub(crate) fn dec_format_3(a: Dec) -> (r: String)
    requires
        a.wf(),
    ensures
        r@ == decimal_text_3(a),
{
    let mut x = rust_decimal::Decimal::from_i128_with_scale(a.mantissa, a.scale);
    x.set_sign_negative(a.negative);
    format!("{:.3}", x)
}

/// The running sum that a fold of `+` over `s`, starting from `Decimal::ZERO`,
/// computes (which is what `Iterator::sum` does for `Decimal`).
pub open spec fn fold_sum(s: Seq<Dec>) -> Dec
    decreases s.len(),
{
    if s.len() == 0 {
        Dec::spec_zero()
    } else {
        decimal_add(fold_sum(s.drop_last()), s.last())
    }
}

/// The exact sum of the values in `s`, in units of `10^-28`.
pub open spec fn units_sum(s: Seq<Dec>) -> int
    decreases s.len(),
{
    if s.len() == 0 {
        0
    } else {
        units_sum(s.drop_last()) + s.last().units()
    }
}

/// The exact sum of the magnitudes in `s`, in units of `10^-28`.
pub open spec fn abs_units_sum(s: Seq<Dec>) -> int
    decreases s.len(),
{
    if s.len() == 0 {
        0
    } else {
        abs_units_sum(s.drop_last()) + abs(s.last().units())
    }
}

/// The largest scale in `s` (0 for an empty sequence).
pub open spec fn seq_max_scale(s: Seq<Dec>) -> nat
    decreases s.len(),
{
    if s.len() == 0 {
        0
    } else {
        let m = seq_max_scale(s.drop_last());
        if s.last().scale > m {
            s.last().scale as nat
        } else {
            m
        }
    }
}

pub open spec fn all_wf(s: Seq<Dec>) -> bool {
    forall|i: int| 0 <= i < s.len() ==> #[trigger] s[i].wf()
}

/// The slack that the rounding of a running sum over `s` may need.
pub open spec fn sum_slack(s: Seq<Dec>) -> int {
    s.len() * (abs_units_sum(s) / pow10(24) as int + 2)
}

/// What the contract of `dec_add` states of `decimal_add(a, b)`.
pub open spec fn add_facts(a: Dec, b: Dec) -> bool {
    let r = decimal_add(a, b);
    &&& r.wf()
    &&& fits_at(a.units() + b.units(), max_scale(a, b)) ==> r.units() == a.units() + b.units()
        && r.scale <= max_scale(a, b)
    &&& representable(a.units() + b.units(), max_scale(a, b)) ==> r.units() == a.units()
        + b.units()
    &&& r.scale <= max_scale(a, b)
    &&& close_to(r.units(), a.units() + b.units())
    &&& !a.negative && !b.negative ==> !r.negative
    &&& r.units() == decimal_add(b, a).units()
}

/// What the contract of `dec_sub` states of `decimal_sub(a, b)`.
pub open spec fn sub_facts(a: Dec, b: Dec) -> bool {
    let r = decimal_sub(a, b);
    &&& r.wf()
    &&& fits_at(a.units() - b.units(), max_scale(a, b)) ==> r.units() == a.units() - b.units()
        && r.scale <= max_scale(a, b)
    &&& representable(a.units() - b.units(), max_scale(a, b)) ==> r.units() == a.units()
        - b.units()
    &&& r.scale <= max_scale(a, b)
    &&& close_to(r.units(), a.units() - b.units())
}

/// Every step of the running sum over `s` (from `Decimal::ZERO`, in order) adds two
/// decimals whose exact sum lies within the range of a decimal, so that no step
/// overflows.
pub open spec fn running_sums_fit(s: Seq<Dec>) -> bool {
    forall|k: int|
        0 <= k < s.len() ==> abs(#[trigger] fold_sum(s.take(k)).units() + s[k].units())
            <= max_units()
}

/// The magnitudes in `s` together, with room for the rounding of a running sum, lie
/// within the range of a decimal. This is a condition on the values alone under
/// which every running sum fits.
pub open spec fn magnitudes_fit(s: Seq<Dec>) -> bool {
    abs_units_sum(s) + sum_slack(s) <= max_units()
}

/// The running sum of the values in `vals`, starting from `Decimal::ZERO`, as
/// `Iterator::sum` computes it for `rust_decimal::Decimal`.
///
/// It requires that no step overflows, or that the magnitudes together fit, which
/// implies it. When all magnitudes together fit a 96-bit mantissa at the largest
/// scale, the sum is exact; when the magnitudes fit, it is within `sum_slack` units of
/// the exact sum.
pub fn sum_decimals(vals: &Vec<Dec>) -> (r: Dec)
    requires
        all_wf(vals@),
        running_sums_fit(vals@) || magnitudes_fit(vals@),
    ensures
        r == fold_sum(vals@),
        r.wf(),
        running_sums_fit(vals@),
        forall|k: int|
            0 <= k < vals@.len() ==> #[trigger] add_facts(fold_sum(vals@.take(k)), vals@[k]),
        magnitudes_fit(vals@) ==> abs(r.units() - units_sum(vals@)) <= sum_slack(vals@),
        abs_units_sum(vals@) < mantissa_limit() * ulp(seq_max_scale(vals@)) ==> r.units()
            == units_sum(vals@) && r.scale <= seq_max_scale(vals@),
        (forall|i: int| 0 <= i < vals@.len() ==> !(#[trigger] vals@[i]).negative) ==> !r.negative,
{
    let n = vals.len();
    let ghost s = vals@;
    let ghost a = abs_units_sum(s);
    let ghost c = a / pow10(24) as int + 2;
    let ghost bounded = magnitudes_fit(s);
    let mut acc = Dec::zero();
    proof {
        assert(s.take(0) =~= Seq::<Dec>::empty());
        lemma_pow10_values();
        lemma_abs_sum_bounds(s);
    }
    for i in 0..n
        invariant
            n == vals@.len(),
            s == vals@,
            all_wf(s),
            a == abs_units_sum(s),
            c == a / pow10(24) as int + 2,
            bounded == magnitudes_fit(s),
            running_sums_fit(s) || bounded,
            acc == fold_sum(s.take(i as int)),
            acc.wf(),
            forall|k: int| 0 <= k < i ==> #[trigger] add_facts(fold_sum(s.take(k)), s[k]),
            forall|k: int|
                0 <= k < i ==> abs(#[trigger] fold_sum(s.take(k)).units() + s[k].units())
                    <= max_units(),
            bounded ==> abs(acc.units() - units_sum(s.take(i as int))) <= i * c,
            a < mantissa_limit() * ulp(seq_max_scale(s)) ==> acc.units() == units_sum(
                s.take(i as int),
            ) && acc.scale <= seq_max_scale(s.take(i as int)),
            (forall|j: int| 0 <= j < s.len() ==> !(#[trigger] s[j]).negative) ==> !acc.negative,
    {
        let ghost prefix = s.take(i as int);
        let ghost next = s.take(i + 1);
        proof {
            assert(next.drop_last() =~= prefix);
            assert(next.last() == s[i as int]);
            lemma_prefix_sums(s, i as int);
            lemma_pow10_values();
            lemma_abs_sum_bounds(s);
            assert(s[i as int].wf());
            if bounded {
                // the exact operand sum stays within the bound `dec_add` needs
                lemma_sum_step_bound(
                    acc.units(),
                    s[i as int].units(),
                    units_sum(prefix),
                    abs_units_sum(next),
                    a,
                    c,
                    i as int,
                    n as int,
                );
            } else {
                assert(abs(fold_sum(s.take(i as int)).units() + s[i as int].units()) <= max_units());
            }
            assert(abs(fold_sum(s.take(i as int)).units() + s[i as int].units()) <= max_units());
        }
        let v = vals[i];
        let old_acc = acc;
        acc = dec_add(acc, v);
        proof {
            assert(acc == fold_sum(next));
            assert(add_facts(fold_sum(s.take(i as int)), s[i as int]));
            assert forall|k: int| 0 <= k < i + 1 implies #[trigger] add_facts(
                fold_sum(s.take(k)),
                s[k],
            ) by {}
            assert forall|k: int| 0 <= k < i + 1 implies abs(
                #[trigger] fold_sum(s.take(k)).units() + s[k].units(),
            ) <= max_units() by {}
            if bounded {
                lemma_sum_step_error(
                    old_acc.units(),
                    v.units(),
                    acc.units(),
                    units_sum(prefix),
                    a,
                    c,
                    i as int,
                    n as int,
                );
            }
            if a < mantissa_limit() * ulp(seq_max_scale(s)) {
                lemma_sum_step_exact(s, i as int, old_acc, v);
            }
        }
    }
    proof {
        assert(s.take(n as int) =~= s);
    }
    acc
}

/// Facts about the prefixes of `s` that the running sum relies on.
proof fn lemma_prefix_sums(s: Seq<Dec>, i: int)
    requires
        0 <= i < s.len(),
    ensures
        units_sum(s.take(i + 1)) == units_sum(s.take(i)) + s[i].units(),
        abs_units_sum(s.take(i + 1)) == abs_units_sum(s.take(i)) + abs(s[i].units()),
        abs_units_sum(s.take(i + 1)) <= abs_units_sum(s),
        abs(units_sum(s.take(i + 1))) <= abs_units_sum(s.take(i + 1)),
        seq_max_scale(s.take(i + 1)) == (if s[i].scale > seq_max_scale(s.take(i)) {
            s[i].scale as nat
        } else {
            seq_max_scale(s.take(i))
        }),
        seq_max_scale(s.take(i + 1)) <= seq_max_scale(s),
{
    assert(s.take(i + 1).drop_last() =~= s.take(i));
    lemma_abs_sum_bounds(s.take(i + 1));
    lemma_prefix_monotone(s, i + 1);
}

proof fn lemma_max_scale_bound(s: Seq<Dec>)
    requires
        all_wf(s),
    ensures
        seq_max_scale(s) <= 28,
    decreases s.len(),
{
    if s.len() > 0 {
        assert(all_wf(s.drop_last()));
        lemma_max_scale_bound(s.drop_last());
        assert(s[s.len() - 1].wf());
    }
}

pub proof fn lemma_abs_sum_bounds(s: Seq<Dec>)
    ensures
        abs(units_sum(s)) <= abs_units_sum(s),
        abs_units_sum(s) >= 0,
    decreases s.len(),
{
    if s.len() > 0 {
        lemma_abs_sum_bounds(s.drop_last());
    }
}

proof fn lemma_prefix_monotone(s: Seq<Dec>, k: int)
    requires
        0 <= k <= s.len(),
    ensures
        abs_units_sum(s.take(k)) <= abs_units_sum(s),
        seq_max_scale(s.take(k)) <= seq_max_scale(s),
    decreases s.len() - k,
{
    if k < s.len() {
        lemma_prefix_monotone(s, k + 1);
        assert(s.take(k + 1).drop_last() =~= s.take(k));
    } else {
        assert(s.take(k) =~= s);
    }
}

/// The operand sum of one step of a running sum stays below the largest decimal.
proof fn lemma_sum_step_bound(
    acc: int,
    v: int,
    exact_prefix: int,
    abs_next: int,
    a: int,
    c: int,
    i: int,
    n: int,
)
    requires
        0 <= i < n,
        n <= 0x1_0000_0000_0000_0000,
        abs(acc - exact_prefix) <= i * c,
        abs(exact_prefix + v) <= abs_next,
        abs_next <= a,
        c >= 2,
        a + n * c <= max_units(),
    ensures
        abs(acc + v) <= max_units(),
{
    assert(i * c <= n * c) by (nonlinear_arith)
        requires
            0 <= i < n,
            c >= 2,
    ;
}

/// One rounded step of a running sum keeps the accumulated error within `c` per step.
proof fn lemma_sum_step_error(
    acc: int,
    v: int,
    next: int,
    exact_prefix: int,
    a: int,
    c: int,
    i: int,
    n: int,
)
    requires
        0 <= i < n,
        n <= 0x1_0000_0000_0000_0000,
        a >= 0,
        abs(acc - exact_prefix) <= i * c,
        abs(exact_prefix + v) <= a,
        c == a / pow10(24) as int + 2,
        pow10(24) == 1000000000000000000000000,
        pow10(25) == 10000000000000000000000000,
        close_to(next, acc + v),
    ensures
        abs(next - (exact_prefix + v)) <= (i + 1) * c,
{
    let e = abs(acc - exact_prefix);
    let ic = i * c;
    assert(ic <= 0x1_0000_0000_0000_0000 * c) by (nonlinear_arith)
        requires
            0 <= i < n,
            n <= 0x1_0000_0000_0000_0000,
            c >= 2,
            ic == i * c,
    ;
    assert((i + 1) * c == ic + c) by (nonlinear_arith)
        requires
            ic == i * c,
    ;
    // |acc + v| <= a + i*c, so its rounding error is at most (a + i*c)/10^25 + 1 <= c
    assert(abs(acc + v) <= a + ic);
}

/// One step of a running sum is exact while all magnitudes fit at the largest scale.
proof fn lemma_sum_step_exact(s: Seq<Dec>, i: int, acc: Dec, v: Dec)
    requires
        0 <= i < s.len(),
        v == s[i],
        acc.units() == units_sum(s.take(i)),
        acc.scale <= seq_max_scale(s.take(i)),
        abs_units_sum(s) < mantissa_limit() * ulp(seq_max_scale(s)),
        add_facts(acc, v),
        all_wf(s),
    ensures
        decimal_add(acc, v).units() == units_sum(s.take(i + 1)),
        decimal_add(acc, v).scale <= seq_max_scale(s.take(i + 1)),
{
    lemma_prefix_sums(s, i);
    lemma_max_scale_bound(s);
    let m = max_scale(acc, v);
    assert(m <= seq_max_scale(s.take(i + 1)));
    assert(m <= seq_max_scale(s));
    lemma_pow10_monotone((28 - seq_max_scale(s)) as nat, (28 - m) as nat);
    assert(ulp(seq_max_scale(s)) <= ulp(m));
    assert(mantissa_limit() * ulp(seq_max_scale(s)) <= mantissa_limit() * ulp(m))
        by (nonlinear_arith)
        requires
            ulp(seq_max_scale(s)) <= ulp(m),
            mantissa_limit() > 0,
    ;
    assert(fits_at(acc.units() + v.units(), m));
}

/// A value close to `e` is at most a little larger than `e`.
pub proof fn lemma_close_bound(x: int, e: int)
    requires
        close_to(x, e),
    ensures
        abs(x) <= abs(e) + abs(e) / 10000000000000000000000000 + 1,
        abs(x - e) <= abs(e) / 10000000000000000000000000 + 1,
{
    lemma_pow10_values();
}

/// Every decimal lies within the range of a decimal.
pub proof fn lemma_units_bound(d: Dec)
    requires
        d.wf(),
    ensures
        abs(d.units()) <= max_units(),
{
    lemma_units_sign(d);
    lemma_pow10_monotone((28 - d.scale) as nat, 28);
    lemma_pow10_values();
    assert(abs(d.mantissa as int) * ulp(d.scale as nat) <= (mantissa_limit() - 1) * one_units())
        by (nonlinear_arith)
        requires
            0 <= abs(d.mantissa as int) <= mantissa_limit() - 1,
            0 <= ulp(d.scale as nat) <= one_units(),
    ;
}

/// How the sign of the mantissa carries over to the value.
pub proof fn lemma_units_sign(d: Dec)
    requires
        d.wf(),
    ensures
        d.mantissa == 0 <==> d.units() == 0,
        d.mantissa > 0 <==> d.units() > 0,
        d.mantissa < 0 <==> d.units() < 0,
        !d.negative ==> d.units() >= 0,
        abs(d.units()) == abs(d.mantissa as int) * ulp(d.scale as nat),
        ulp(d.scale as nat) >= 1,
{
    lemma_pow10_positive((28 - d.scale) as nat);
    let u = ulp(d.scale as nat);
    let m = d.mantissa as int;
    assert(d.units() == m * u);
    assert(m > 0 ==> m * u > 0) by (nonlinear_arith)
        requires
            u > 0,
    ;
    assert(m < 0 ==> m * u < 0) by (nonlinear_arith)
        requires
            u > 0,
    ;
    assert(m == 0 ==> m * u == 0) by (nonlinear_arith);
    assert(m >= 0 ==> m * u >= 0) by (nonlinear_arith)
        requires
            u > 0,
    ;
    assert(m < 0 ==> -(m * u) == (-m) * u) by (nonlinear_arith);
}

/// `m * 10^a` is divisible by `10^b` when `a >= b`.
pub proof fn lemma_multiple_of_pow10(m: int, a: nat, b: nat)
    requires
        a >= b,
    ensures
        (m * pow10(a)) % (pow10(b) as int) == 0,
{
    lemma_pow10_add((a - b) as nat, b);
    lemma_pow10_positive(b);
    let x = pow10((a - b) as nat) as int;
    let y = pow10(b) as int;
    assert(m * pow10(a) == (m * x) * y) by (nonlinear_arith)
        requires
            pow10(a) == x * y,
    ;
    vstd::arithmetic::div_mod::lemma_mod_multiples_basic(m * x, y);
}

/// The integral part keeps the sign bit and drops the fraction like rounding to
/// zero places does.
pub proof fn lemma_trunc(a: Dec)
    requires
        a.wf(),
    ensures
        trunc(a).wf(),
        trunc(a).mantissa == round_dp_to_zero(a, 0).mantissa,
        trunc(a).units() == round_dp_to_zero(a, 0).units(),
        a.units() % one_units() == 0 ==> trunc(a).units() == a.units(),
        trunc(a).units() == trunc(a).mantissa * one_units(),
{
    lemma_round_dp_to_zero(a, 0);
    lemma_pow10_values();
    if a.scale == 0 {
        assert(pow10(0) == 1);
        assert(div_toward_zero(a.mantissa as int, 0) == a.mantissa as int);
    }
    let r = round_dp_to_zero(a, 0);
    assert(trunc(a).mantissa == r.mantissa);
    assert(r.scale == 0);
    assert(trunc(a).units() == r.units());
}

/// A multiple of `d` plus or minus a non-negative `x` below `d` is a multiple of `d`
/// only when `x` is zero.
proof fn lemma_no_small_remainder(q: int, x: int, d: int, plus: bool)
    requires
        d > 0,
        0 <= x < d,
        plus ==> (d * q + x) % d == 0,
        !plus ==> (d * q - x) % d == 0,
    ensures
        x == 0,
{
    if plus {
        vstd::arithmetic::div_mod::lemma_mod_multiples_vanish(q, x, d);
        vstd::arithmetic::div_mod::lemma_small_mod(x as nat, d as nat);
    } else if x > 0 {
        assert(d * q - x == d * (q - 1) + (d - x)) by (nonlinear_arith);
        vstd::arithmetic::div_mod::lemma_mod_multiples_vanish(q - 1, d - x, d);
        vstd::arithmetic::div_mod::lemma_small_mod((d - x) as nat, d as nat);
    }
}

/// What dropping the digits beyond `dp` decimal places does to a value.
pub proof fn lemma_round_dp_to_zero(a: Dec, dp: nat)
    requires
        a.wf(),
        dp <= 28,
    ensures
        round_dp_to_zero(a, dp).wf(),
        round_dp_to_zero(a, dp).scale <= a.scale,
        round_dp_to_zero(a, dp).scale <= dp,
        abs(round_dp_to_zero(a, dp).units()) <= abs(a.units()),
        abs(a.units() - round_dp_to_zero(a, dp).units()) < ulp(dp),
        a.units() >= 0 ==> round_dp_to_zero(a, dp).units() >= 0,
        a.units() <= 0 ==> round_dp_to_zero(a, dp).units() <= 0,
        a.units() % ulp(dp) == 0 ==> round_dp_to_zero(a, dp).units() == a.units(),
        round_dp_to_zero(a, dp).units() % ulp(dp) == 0,
{
    let r = round_dp_to_zero(a, dp);
    let s = a.scale as nat;
    lemma_units_sign(a);
    lemma_pow10_positive((28 - dp) as nat);
    if s <= dp {
        lemma_multiple_of_pow10(a.mantissa as int, (28 - s) as nat, (28 - dp) as nat);
    } else {
        let k = (s - dp) as nat;
        let pk = pow10(k) as int;
        let ps = pow10((28 - s) as nat) as int;
        let pd = pow10((28 - dp) as nat) as int;
        lemma_pow10_add(k, (28 - s) as nat);
        assert(pd == pk * ps);
        lemma_pow10_positive(k);
        lemma_pow10_positive((28 - s) as nat);
        let m = a.mantissa as int;
        let am = abs(m);
        let q = am / pk;
        let rem = am % pk;
        assert(am == q * pk + rem && 0 <= rem < pk) by {
            vstd::arithmetic::div_mod::lemma_fundamental_div_mod(am, pk);
        }
        assert(q <= am) by (nonlinear_arith)
            requires
                am == q * pk + rem,
                0 <= rem,
                pk >= 1,
                q >= 0 || q < 0,
                am >= 0,
        {
            if q < 0 {
                assert(q * pk < 0);
            }
        }
        assert(q >= 0) by (nonlinear_arith)
            requires
                am >= 0,
                pk > 0,
                q == am / pk,
        ;
        let rm = r.mantissa as int;
        assert(rm == if m < 0 { -q } else { q });
        assert(r.wf());
        // |units(a)| == |units(r)| + rem * ps, and rem * ps < pd
        assert(abs(a.units()) == am * ps) by {
            lemma_units_sign(a);
        }
        assert(abs(r.units()) == q * pd) by {
            lemma_units_sign(r);
        }
        assert(am * ps == q * pd + rem * ps) by (nonlinear_arith)
            requires
                am == q * pk + rem,
                pd == pk * ps,
        ;
        assert(rem * ps < pd) by (nonlinear_arith)
            requires
                0 <= rem < pk,
                pd == pk * ps,
                ps > 0,
        ;
        assert(0 <= rem * ps) by (nonlinear_arith)
            requires
                0 <= rem,
                ps > 0,
        ;
        lemma_units_sign(r);
        assert(m >= 0 ==> a.units() == am * ps && r.units() == q * pd);
        assert(m < 0 ==> a.units() == -(am * ps) && r.units() == -(q * pd));
        assert((q * pd) % pd == 0) by {
            vstd::arithmetic::div_mod::lemma_mod_multiples_basic(q, pd);
        }
        assert((-(q * pd)) % pd == 0) by {
            vstd::arithmetic::div_mod::lemma_mod_multiples_basic(-q, pd);
            assert(-q * pd == -(q * pd)) by (nonlinear_arith);
        }
        if a.units() % pd == 0 {
            // rem * ps is then a multiple of pd below pd, so it is zero
            assert(q * pd == pd * q) by (nonlinear_arith);
            if m >= 0 {
                lemma_no_small_remainder(q, rem * ps, pd, true);
            } else {
                assert(-(q * pd) == pd * (-q)) by (nonlinear_arith);
                lemma_no_small_remainder(-q, rem * ps, pd, false);
            }
        }
    }
}

pub proof fn lemma_pow10_positive(n: nat)
    ensures
        pow10(n) > 0,
    decreases n,
{
    if n > 0 {
        lemma_pow10_positive((n - 1) as nat);
    }
}

pub proof fn lemma_pow10_add(a: nat, b: nat)
    ensures
        pow10(a + b) == pow10(a) * pow10(b),
    decreases a,
{
    if a > 0 {
        let a1 = (a - 1) as nat;
        lemma_pow10_add(a1, b);
        assert(pow10(a + b) == 10 * pow10(a1 + b));
        let x = pow10(a1);
        let y = pow10(b);
        assert(pow10(a) * y == 10 * (x * y)) by (nonlinear_arith)
            requires
                pow10(a) == 10 * x,
        ;
        assert(pow10(a + b) == pow10(a) * pow10(b));
    } else {
        assert(pow10(0) == 1);
        assert(a + b == b);
    }
}

pub proof fn lemma_pow10_monotone(a: nat, b: nat)
    requires
        a <= b,
    ensures
        pow10(a) <= pow10(b),
    decreases b,
{
    if a < b {
        lemma_pow10_monotone(a, (b - 1) as nat);
        lemma_pow10_positive((b - 1) as nat);
    }
}

pub proof fn lemma_pow10_values()
    ensures
        pow10(0) == 1,
        pow10(1) == 10,
        pow10(2) == 100,
        pow10(22) == 10000000000000000000000,
        pow10(24) == 1000000000000000000000000,
        pow10(25) == 10000000000000000000000000,
        pow10(26) == 100000000000000000000000000,
        pow10(27) == 1000000000000000000000000000,
        pow10(28) == 10000000000000000000000000000,
{
    reveal_with_fuel(pow10, 29);
}

} // verus!
