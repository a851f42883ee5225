//! An amount of money.
use crate::decimal::{
    abs, abs_units_sum, add_facts, all_wf, dec_add, dec_eq, dec_format, dec_mul, decimal_add,
    decimal_mul, decimal_text, fold_sum, magnitudes_fit, mantissa_limit, max_scale, max_units,
    mul_is_exact, one_units, pow10, representable, running_sums_fit, seq_max_scale, sum_decimals,
    sum_slack, ulp, units_sum, Dec,
};
use crate::error::Error;
use vstd::prelude::*;

verus! {

/// An amount of money, held as a decimal.
#[derive(Clone, Copy, Debug)]
pub struct DollarValue(Dec);

impl View for DollarValue {
    type V = Dec;

    closed spec fn view(&self) -> Dec {
        self.0
    }
}

/// The decimals held by a sequence of dollar values.
pub open spec fn dollar_values(vs: Seq<DollarValue>) -> Seq<Dec> {
    vs.map_values(|v: DollarValue| v@)
}

impl DollarValue {
    #[verifier::type_invariant]
    spec fn inv(self) -> bool {
        self.0.wf()
    }

    /// The amount `value`.
    pub fn new(value: Dec) -> (r: DollarValue)
        requires
            value.wf(),
        ensures
            r@ == value,
    {
        DollarValue(value)
    }

    /// The decimal held.
    pub fn inner(self) -> (r: Dec)
        ensures
            r == self@,
            r.wf(),
    {
        proof {
            use_type_invariant(&self);
        }
        self.0
    }

    /// `self + rhs`.
    pub fn add(self, rhs: DollarValue) -> (r: DollarValue)
        requires
            abs(self@.units() + rhs@.units()) <= max_units(),
        ensures
            r@ == decimal_add(self@, rhs@),
            add_facts(self@, rhs@),
            representable(self@.units() + rhs@.units(), max_scale(self@, rhs@)) ==> r@.units()
                == self@.units() + rhs@.units(),
            r@.units() == decimal_add(rhs@, self@).units(),
    {
        proof {
            use_type_invariant(&self);
            use_type_invariant(&rhs);
        }
        DollarValue(dec_add(self.0, rhs.0))
    }

    /// `self * rhs`.
    pub fn mul(self, rhs: Dec) -> (r: DollarValue)
        requires
            rhs.wf(),
            abs(self@.units() * rhs.units()) <= max_units() * one_units(),
        ensures
            r@ == decimal_mul(self@, rhs),
            r@.wf(),
            mul_is_exact(self@, rhs) ==> r@.units() * one_units() == self@.units() * rhs.units()
                && r@.scale <= self@.scale + rhs.scale,
            abs(r@.units() * one_units() - self@.units() * rhs.units()) * pow10(25) <= abs(
                self@.units() * rhs.units(),
            ) + pow10(25) * one_units(),
    {
        proof {
            use_type_invariant(&self);
        }
        DollarValue(dec_mul(self.0, rhs))
    }

    /// The running sum of `values`, starting from zero, as `Iterator::sum` computes it.
    /// No step may overflow (which the magnitudes fitting together guarantees). When
    /// all magnitudes together fit a 96-bit mantissa at the largest scale, the sum is
    /// exact.
    pub fn sum(values: &Vec<DollarValue>) -> (r: DollarValue)
        requires
            running_sums_fit(dollar_values(values@)) || magnitudes_fit(dollar_values(values@)),
        ensures
            r@ == fold_sum(dollar_values(values@)),
            running_sums_fit(dollar_values(values@)),
            forall|k: int|
                0 <= k < values@.len() ==> #[trigger] add_facts(
                    fold_sum(dollar_values(values@).take(k)),
                    dollar_values(values@)[k],
                ),
            magnitudes_fit(dollar_values(values@)) ==> abs(r@.units() - units_sum(
                dollar_values(values@),
            )) <= sum_slack(dollar_values(values@)),
            abs_units_sum(dollar_values(values@)) < mantissa_limit() * ulp(
                seq_max_scale(dollar_values(values@)),
            ) ==> r@.units() == units_sum(dollar_values(values@)) && r@.scale <= seq_max_scale(
                dollar_values(values@),
            ),
    {
        let n = values.len();
        let mut vals: Vec<Dec> = Vec::new();
        for i in 0..n
            invariant
                n == values@.len(),
                vals@ == dollar_values(values@.take(i as int)),
                all_wf(vals@),
        {
            let v = values[i].inner();
            vals.push(v);
            proof {
                assert(dollar_values(values@.take(i + 1)) =~= dollar_values(
                    values@.take(i as int),
                ).push(values@[i as int]@));
            }
        }
        proof {
            assert(values@.take(n as int) =~= values@);
            assert(vals@ =~= dollar_values(values@));
        }
        let total = sum_decimals(&vals);
        DollarValue(total)
    }

    /// The amount written out, as `Display` shows it.
    pub fn to_string(&self) -> (r: String)
        ensures
            r@ == decimal_text(self@),
    {
        proof {
            use_type_invariant(self);
        }
        dec_format(self.0)
    }

    /// `DollarValue::from(i32)`: a whole amount.
    pub fn from_i32(value: i32) -> (r: DollarValue)
        ensures
            r@.mantissa == value,
            r@.scale == 0,
            r@.wf(),
    {
        DollarValue(Dec::from_i32(value))
    }

    /// `DollarValue::try_from` for a number that has been converted to a decimal:
    /// `DollarValueInvalid` when the conversion failed.
    pub fn try_from_converted(converted: Option<Dec>) -> (r: Result<DollarValue, Error>)
        requires
            converted matches Some(d) ==> d.wf(),
        ensures
            converted is None ==> r == Err::<DollarValue, Error>(Error::DollarValueInvalid),
            converted matches Some(d) ==> r matches Ok(v) && v@ == d,
    {
        match converted {
            None => Err(Error::DollarValueInvalid),
            Some(d) => Ok(DollarValue(d)),
        }
    }
}

impl From<i32> for DollarValue {
    /// A whole amount.
    fn from(value: i32) -> (r: DollarValue)
        ensures
            r@ == Dec::spec_from_i32(value),
    {
        DollarValue(Dec::from_i32(value))
    }
}

impl From<Dec> for DollarValue {
    /// The amount that a decimal holds; parts that describe no decimal give zero.
    fn from(value: Dec) -> (r: DollarValue)
        ensures
            value.wf() ==> r@ == value,
            !value.wf() ==> r@ == Dec::spec_zero(),
    {
        match Dec::from_parts(value.mantissa, value.scale, value.negative) {
            Some(d) => DollarValue(d),
            None => DollarValue(Dec::zero()),
        }
    }
}

impl vstd::std_specs::convert::FromSpecImpl<Dec> for DollarValue {
    open spec fn obeys_from_spec() -> bool {
        false
    }

    /// The amount a decimal holds.
    closed spec fn from_spec(v: Dec) -> DollarValue {
        DollarValue(v)
    }
}

impl vstd::std_specs::convert::FromSpecImpl<i32> for DollarValue {
    open spec fn obeys_from_spec() -> bool {
        true
    }

    /// The whole amount `v`.
    closed spec fn from_spec(v: i32) -> DollarValue {
        DollarValue(Dec::spec_from_i32(v))
    }
}

impl PartialEq for DollarValue {
    /// Equal amounts, whatever their scales.
    fn eq(&self, other: &DollarValue) -> (r: bool) {
        proof {
            use_type_invariant(self);
            use_type_invariant(other);
        }
        dec_eq(self.0, other.0)
    }
}

impl vstd::std_specs::cmp::PartialEqSpecImpl for DollarValue {
    open spec fn obeys_eq_spec() -> bool {
        true
    }

    open spec fn eq_spec(&self, other: &DollarValue) -> bool {
        self@.units() == other@.units()
    }
}

} // verus!
