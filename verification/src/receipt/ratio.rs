//! A share of a whole, between zero and one.
use crate::decimal::{
    abs, abs_units_sum, add_facts, close_to, dec_format_3, dec_gt, decimal_add, decimal_text_3,
    fits_at, fold_sum, lemma_pow10_monotone, lemma_pow10_values, lemma_units_sign,
    mantissa_limit, max_scale, max_units, one_units, pow10, sum_decimals, sum_slack, ulp,
    units_sum, Dec,
};
use crate::error::Error;
use vstd::prelude::*;

verus! {

/// The decimals that a ratio may hold: valid, and between zero and one (a zero with
/// the sign bit set is zero too).
pub open spec fn in_unit_range(d: Dec) -> bool {
    &&& d.wf()
    &&& 0 <= d.units() <= one_units()
}

/// A decimal between zero and one (both included).
#[derive(Clone, Copy, Debug)]
pub struct Ratio(Dec);

impl View for Ratio {
    type V = Dec;

    closed spec fn view(&self) -> Dec {
        self.0
    }
}

/// The decimals held by a sequence of ratios.
pub open spec fn ratio_values(rs: Seq<Ratio>) -> Seq<Dec> {
    rs.map_values(|r: Ratio| r@)
}

impl Ratio {
    #[verifier::type_invariant]
    spec fn inv(self) -> bool {
        in_unit_range(self.0)
    }

    /// Wraps `value` without checking it; the caller vouches that it lies in `0..=1`.
    pub fn new_unchecked(value: Dec) -> (r: Ratio)
        requires
            in_unit_range(value),
        ensures
            r@ == value,
    {
        Ratio(value)
    }

    /// A ratio holding `value`, or `RatioOutOfRange` when `value` lies outside
    /// `0..=1`.
    pub fn try_new(value: Dec) -> (r: Result<Ratio, Error>)
        requires
            value.wf(),
        ensures
            r is Ok <==> 0 <= value.units() <= one_units(),
            r matches Ok(ratio) ==> ratio@ == value,
            r is Err ==> r == Err::<Ratio, Error>(Error::RatioOutOfRange(value)),
    {
        proof {
            lemma_units_sign(value);
        }
        if value.mantissa < 0 || dec_gt(value, Dec::one()) {
            Err(Error::RatioOutOfRange(value))
        } else {
            Ok(Ratio(value))
        }
    }

    /// `Ratio::sum`: the running sum of the ratios (as `Iterator::sum` computes it
    /// for decimals), as a ratio, or `RatioOutOfRange` with that sum when it exceeds
    /// one. The running sum is the exact sum whenever that is at most six (so always
    /// when it succeeds).
    pub fn sum(items: &Vec<Ratio>) -> (r: Result<Ratio, Error>)
        ensures
            ({
                let s = fold_sum(ratio_values(items@));
                &&& r is Ok <==> units_sum(ratio_values(items@)) <= one_units()
                &&& r matches Ok(total) ==> total@ == s && s.units() == units_sum(
                    ratio_values(items@),
                )
                &&& r is Err ==> r == Err::<Ratio, Error>(Error::RatioOutOfRange(s))
                    && s.units() > one_units()
                &&& units_sum(ratio_values(items@)) <= 6 * one_units() ==> s.units() == units_sum(
                    ratio_values(items@),
                )
            }),
    {
        let n = items.len();
        let mut vals: Vec<Dec> = Vec::new();
        for i in 0..n
            invariant
                n == items@.len(),
                vals@ == ratio_values(items@.take(i as int)),
                forall|j: int| 0 <= j < vals@.len() ==> in_unit_range(#[trigger] vals@[j]),
        {
            let v = items[i].inner();
            vals.push(v);
            proof {
                assert(ratio_values(items@.take(i + 1)) =~= ratio_values(items@.take(i as int)).push(
                    items@[i as int]@,
                ));
            }
        }
        proof {
            assert(items@.take(n as int) =~= items@);
            assert(vals@ =~= ratio_values(items@));
            lemma_unit_range_sum_bound(vals@);
        }
        let total = sum_decimals(&vals);
        proof {
            lemma_small_running_sum_exact(vals@, vals@.len() as int);
            assert(vals@.take(vals@.len() as int) =~= vals@);
            lemma_units_sign(total);
            lemma_pow10_values();
        }
        Ratio::try_new(total)
    }

    /// The decimal held.
    pub fn inner(self) -> (r: Dec)
        ensures
            r == self@,
            in_unit_range(r),
    {
        proof {
            use_type_invariant(&self);
        }
        self.0
    }

    /// The ratio written with three decimal places, as `Display` shows it.
    pub fn to_string(&self) -> (r: String)
        ensures
            r@ == decimal_text_3(self@),
    {
        proof {
            use_type_invariant(self);
        }
        dec_format_3(self.0)
    }

    /// `Ratio::try_from` for a decimal: the same as `try_new`.
    pub fn try_from_decimal(value: Dec) -> (r: Result<Ratio, Error>)
        requires
            value.wf(),
        ensures
            r is Ok <==> 0 <= value.units() <= one_units(),
            r matches Ok(ratio) ==> ratio@ == value,
            r is Err ==> r == Err::<Ratio, Error>(Error::RatioOutOfRange(value)),
    {
        Ratio::try_new(value)
    }

    /// `Ratio::try_from` for a number that has been converted to a decimal:
    /// `RatioInvalid` when the conversion failed, else `try_new` of the decimal.
    pub fn try_from_converted(converted: Option<Dec>) -> (r: Result<Ratio, Error>)
        requires
            converted matches Some(d) ==> d.wf(),
        ensures
            converted is None ==> r == Err::<Ratio, Error>(Error::RatioInvalid),
            converted matches Some(d) ==> {
                &&& r is Ok <==> 0 <= d.units() <= one_units()
                &&& r matches Ok(ratio) ==> ratio@ == d
                &&& r is Err ==> r == Err::<Ratio, Error>(Error::RatioOutOfRange(d))
            },
    {
        match converted {
            None => Err(Error::RatioInvalid),
            Some(d) => Ratio::try_new(d),
        }
    }
}

/// A sum of at most `usize::MAX` ratios stays far below the largest decimal.
proof fn lemma_unit_range_sum_bound(s: Seq<Dec>)
    requires
        s.len() <= usize::MAX,
        forall|j: int| 0 <= j < s.len() ==> in_unit_range(#[trigger] s[j]),
    ensures
        0 <= abs_units_sum(s) <= s.len() * one_units(),
        abs_units_sum(s) + sum_slack(s) <= max_units(),
        forall|j: int| 0 <= j < s.len() ==> (#[trigger] s[j]).wf(),
    decreases s.len(),
{
    if s.len() > 0 {
        let t = s.drop_last();
        assert forall|j: int| 0 <= j < t.len() implies in_unit_range(#[trigger] t[j]) by {
            assert(t[j] == s[j]);
        }
        lemma_unit_range_sum_bound(t);
        assert(in_unit_range(s[s.len() - 1]));
        lemma_units_sign(s.last());
    }
    lemma_pow10_values();
    let a = abs_units_sum(s);
    let n = s.len() as int;
    assert(a / pow10(24) as int <= n * 10000) by (nonlinear_arith)
        requires
            0 <= a <= n * 10000000000000000000000000000,
            pow10(24) == 1000000000000000000000000,
    ;
    assert(sum_slack(s) == n * (a / pow10(24) as int + 2));
    assert(n * (a / pow10(24) as int + 2) <= n * (n * 10000 + 2)) by (nonlinear_arith)
        requires
            0 <= n,
            a / pow10(24) as int <= n * 10000,
            a >= 0,
    ;
    assert(n * (n * 10000 + 2) <= 0x1_0000_0000_0000_0000 * (0x1_0000_0000_0000_0000 * 10000 + 2))
        by (nonlinear_arith)
        requires
            0 <= n <= 0x1_0000_0000_0000_0000,
    ;
    assert(a <= 0x1_0000_0000_0000_0000 * 10000000000000000000000000000) by (nonlinear_arith)
        requires
            0 <= n <= 0x1_0000_0000_0000_0000,
            0 <= a <= n * 10000000000000000000000000000,
    ;
}

/// A running sum of ratios that ends at most one never rounded: it is the exact sum.
///
/// While the exact prefix sum stays below 6, each step fits a 96-bit mantissa at
/// scale 28 and so is exact; once it passes 6, the rounded running sum can only
/// drift down by a tiny amount per step and stays above 2.
proof fn lemma_small_running_sum_exact(s: Seq<Dec>, k: int)
    requires
        0 <= k <= s.len(),
        s.len() <= usize::MAX,
        forall|j: int| 0 <= j < s.len() ==> in_unit_range(#[trigger] s[j]),
        forall|j: int| 0 <= j < s.len() ==> #[trigger] add_facts(fold_sum(s.take(j)), s[j]),
    ensures
        fold_sum(s.take(k)).units() >= 0,
        fold_sum(s.take(k)).wf(),
        units_sum(s.take(k)) >= 0,
        units_sum(s.take(k)) <= 6 * one_units() ==> fold_sum(s.take(k)).units() == units_sum(
            s.take(k),
        ),
        units_sum(s.take(k)) > 6 * one_units() ==> fold_sum(s.take(k)).units() >= 3 * one_units()
            - k * 10000,
        fold_sum(s.take(k)).units() <= one_units() ==> fold_sum(s.take(k)).units() == units_sum(
            s.take(k),
        ),
    decreases k,
{
    lemma_pow10_values();
    if k == 0 {
        assert(s.take(0) =~= Seq::<Dec>::empty());
        assert(fold_sum(s.take(0)) == Dec::spec_zero());
        lemma_units_sign(Dec::spec_zero());
    } else {
        let j = k - 1;
        lemma_small_running_sum_exact(s, j);
        let prev = fold_sum(s.take(j));
        let v = s[j];
        assert(s.take(k).drop_last() =~= s.take(j));
        assert(s.take(k).last() == v);
        assert(fold_sum(s.take(k)) == decimal_add(prev, v));
        assert(units_sum(s.take(k)) == units_sum(s.take(j)) + v.units());
        assert(add_facts(prev, v));
        assert(in_unit_range(v));
        lemma_units_sign(v);
        lemma_units_sign(prev);
        let next = decimal_add(prev, v);
        lemma_units_sign(next);
        let e = prev.units() + v.units();
        if units_sum(s.take(j)) <= 6 * one_units() {
            // the step fits at scale 28, so it is exact
            assert(max_scale(prev, v) <= 28);
            lemma_pow10_monotone(0, (28 - max_scale(prev, v)) as nat);
            assert(ulp(max_scale(prev, v)) >= 1);
            assert(abs(e) < mantissa_limit());
            assert(mantissa_limit() <= mantissa_limit() * ulp(max_scale(prev, v)))
                by (nonlinear_arith)
                requires
                    ulp(max_scale(prev, v)) >= 1,
                    mantissa_limit() > 0,
            ;
            assert(fits_at(e, max_scale(prev, v)));
            assert(next.units() == units_sum(s.take(k)));
            if units_sum(s.take(k)) > 6 * one_units() {
                assert(next.units() >= 3 * one_units() - k * 10000);
            }
        } else {
            // the running sum is at least 3 - j/10^24 and drifts down by at most 10^-24
            assert(prev.units() >= 3 * one_units() - j * 10000);
            assert(close_to(next.units(), e));
            assert(e >= prev.units());
            assert(abs(next.units() - e) * pow10(25) <= abs(e) + pow10(25));
            if prev.units() >= 4 * one_units() {
                assert(next.units() >= 3 * one_units());
            } else {
                assert(e <= 5 * one_units());
                assert(next.units() >= prev.units() - 5001);
            }
            assert(next.units() >= 3 * one_units() - k * 10000);
        }
        if next.units() <= one_units() {
            assert(k * 10000 <= 0x1_0000_0000_0000_0000 * 10000);
        }
    }
}

impl From<Ratio> for Dec {
    /// The decimal that a ratio holds.
    fn from(r: Ratio) -> (d: Dec)
        ensures
            d == r@,
    {
        r.inner()
    }
}

impl vstd::std_specs::convert::FromSpecImpl<Ratio> for Dec {
    open spec fn obeys_from_spec() -> bool {
        true
    }

    open spec fn from_spec(v: Ratio) -> Dec {
        v@
    }
}

} // verus!
