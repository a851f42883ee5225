//! The errors that building a receipt, a ratio or a split can give.
use crate::decimal::Dec;
use crate::receipt::dollar_value::DollarValue;
use crate::receipt::ratio::Ratio;
use vstd::prelude::*;

verus! {

/// Why a receipt, a ratio, a dollar value or a split was refused.
#[derive(Debug)]
pub enum Error {
    /// The items of a receipt do not add up to its total.
    TotalMismatch { got: DollarValue, expected: DollarValue },
    /// The ratios of a split do not add up to one.
    RatioSumNotOne(Vec<Ratio>),
    /// A ratio lies outside `0..=1`.
    RatioOutOfRange(Dec),
    /// A ratio could not be read as a decimal.
    RatioInvalid,
    /// A dollar value could not be read as a decimal.
    DollarValueInvalid,
}

} // verus!
