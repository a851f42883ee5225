//! A receipt: named items whose values add up to a total, split between people.
pub mod dollar_value;
pub mod ratio;

use crate::decimal::{
    abs, abs_units_sum, add_facts, close_to, dec_div, dec_gt, dec_mul, dec_round_dp_to_zero,
    dec_sub, dec_to_usize, dec_trunc, decimal_add, decimal_div, decimal_mul, decimal_sub,
    fits_at, fold_sum, lemma_pow10_values, lemma_round_dp_to_zero, lemma_units_sign,
    magnitudes_fit, mantissa_limit, max_scale, max_units, mul_is_exact, one_units, pow10,
    representable, round_dp_to_zero, running_sums_fit, seq_max_scale, sub_facts, sum_slack,
    to_usize, trunc, ulp, units_sum, Dec,
};
use crate::error::Error;
use crate::receipt::dollar_value::{dollar_values, DollarValue};
use crate::receipt::ratio::in_unit_range;
use crate::receipt::ratio::{ratio_values, Ratio};
use vstd::prelude::*;

verus! {

/// A named line of a receipt.
pub struct Item {
    pub name: String,
    pub value: DollarValue,
}

impl Item {
    /// An item called `name` worth `value`.
    pub fn new(name: String, value: DollarValue) -> (r: Item)
        ensures
            r.name@ == name@,
            r.value == value,
    {
        Item { name, value }
    }
}

/// One person's share of a split, as a ratio of the total.
#[derive(Clone, Debug)]
pub struct UserSplit {
    pub username: String,
    pub ratio: Ratio,
}

impl UserSplit {
    /// `username` takes `ratio` of the total.
    pub fn new(username: String, ratio: Ratio) -> (r: UserSplit)
        ensures
            r.username@ == username@,
            r.ratio == ratio,
    {
        UserSplit { username, ratio }
    }
}

/// One person's share of a split, as an amount.
#[derive(Clone, Debug)]
pub struct UserSplitResult {
    pub username: String,
    pub amount: DollarValue,
}

impl UserSplitResult {
    /// `username` pays `amount`.
    pub fn new(username: String, amount: DollarValue) -> (r: UserSplitResult)
        ensures
            r.username@ == username@,
            r.amount == amount,
    {
        UserSplitResult { username, amount }
    }

    /// The amount, as a decimal.
    pub fn value(&self) -> (r: Dec)
        ensures
            r == self.amount@,
            r.wf(),
    {
        self.amount.inner()
    }
}

/// Items and the total that they add up to.
pub struct Receipt {
    pub items: Vec<Item>,
    pub total: DollarValue,
}

/// The values of a sequence of items.
pub open spec fn item_values(items: Seq<Item>) -> Seq<Dec> {
    items.map_values(|i: Item| i.value@)
}

/// The amounts of a sequence of split results.
pub open spec fn result_amounts(rs: Seq<UserSplitResult>) -> Seq<Dec> {
    rs.map_values(|r: UserSplitResult| r.amount@)
}

/// The ratios of a sequence of splits.
pub open spec fn split_ratios(ss: Seq<UserSplit>) -> Seq<Ratio> {
    ss.map_values(|s: UserSplit| s.ratio)
}

impl Receipt {
    /// A receipt of `items` with `total`, or `TotalMismatch` when the running sum of
    /// the item values differs from the total. No step of the running sum may
    /// overflow. When all magnitudes together fit a 96-bit mantissa at the largest
    /// scale, the running sum is the exact sum.
    pub fn try_new(items: Vec<Item>, total: DollarValue) -> (r: Result<Receipt, Error>)
        requires
            running_sums_fit(item_values(items@)) || magnitudes_fit(item_values(items@)),
        ensures
            r is Ok <==> fold_sum(item_values(items@)).units() == total@.units(),
            r matches Ok(receipt) ==> receipt.items@ == items@ && receipt.total == total,
            r matches Err(e) ==> e matches Error::TotalMismatch { got, expected } && got@
                == fold_sum(item_values(items@)) && expected == total,
            abs_units_sum(item_values(items@)) < mantissa_limit() * ulp(
                seq_max_scale(item_values(items@)),
            ) ==> fold_sum(item_values(items@)).units() == units_sum(item_values(items@)) && (r is Ok
                <==> units_sum(item_values(items@)) == total@.units()),
    {
        let n = items.len();
        let mut values: Vec<DollarValue> = Vec::new();
        for i in 0..n
            invariant
                n == items@.len(),
                dollar_values(values@) == item_values(items@.take(i as int)),
        {
            values.push(items[i].value);
            proof {
                assert(item_values(items@.take(i + 1)) =~= item_values(items@.take(i as int)).push(
                    items@[i as int].value@,
                ));
                assert(dollar_values(values@) =~= dollar_values(values@.drop_last()).push(
                    values@.last()@,
                ));
            }
        }
        proof {
            assert(items@.take(n as int) =~= items@);
        }
        let total_items_value = DollarValue::sum(&values);
        if !(total_items_value == total) {
            return Err(Error::TotalMismatch { got: total_items_value, expected: total });
        }
        Ok(Receipt { items, total })
    }

    /// The names of the items, in order.
    pub fn names(&self) -> (r: Vec<String>)
        ensures
            r@.len() == self.items@.len(),
            forall|i: int| 0 <= i < r@.len() ==> #[trigger] r@[i] == self.items@[i].name,
    {
        let n = self.items.len();
        let mut names: Vec<String> = Vec::new();
        for i in 0..n
            invariant
                n == self.items@.len(),
                names@.len() == i,
                forall|j: int| 0 <= j < i ==> #[trigger] names@[j] == self.items@[j].name,
        {
            names.push(self.items[i].name.clone());
        }
        names
    }

    /// What is left of the total after the amounts of `results`: the total minus the
    /// running sum of the amounts. Neither a step of the running sum nor the
    /// difference may overflow; that the magnitudes, with room for rounding, fit
    /// guarantees it.
    pub fn get_extra_value(&self, results: &Vec<UserSplitResult>) -> (r: DollarValue)
        requires
            running_sums_fit(result_amounts(results@)) && abs(self.total@.units() - fold_sum(
                result_amounts(results@),
            ).units()) <= max_units() || magnitudes_fit(result_amounts(results@)) && abs(
                self.total@.units() - units_sum(result_amounts(results@)),
            ) + sum_slack(result_amounts(results@)) <= max_units(),
        ensures
            r@ == decimal_sub(self.total@, fold_sum(result_amounts(results@))),
            sub_facts(self.total@, fold_sum(result_amounts(results@))),
            running_sums_fit(result_amounts(results@)),
            magnitudes_fit(result_amounts(results@)) ==> abs(fold_sum(
                result_amounts(results@),
            ).units() - units_sum(result_amounts(results@))) <= sum_slack(
                result_amounts(results@),
            ),
            forall|k: int|
                0 <= k < results@.len() ==> #[trigger] add_facts(
                    fold_sum(result_amounts(results@).take(k)),
                    result_amounts(results@)[k],
                ),
            abs_units_sum(result_amounts(results@)) < mantissa_limit() * ulp(
                seq_max_scale(result_amounts(results@)),
            ) ==> fold_sum(result_amounts(results@)).units() == units_sum(
                result_amounts(results@),
            ) && fold_sum(result_amounts(results@)).scale <= seq_max_scale(
                result_amounts(results@),
            ),
    {
        let n = results.len();
        let mut values: Vec<DollarValue> = Vec::new();
        for i in 0..n
            invariant
                n == results@.len(),
                dollar_values(values@) == result_amounts(results@.take(i as int)),
        {
            values.push(results[i].amount);
            proof {
                assert(result_amounts(results@.take(i + 1)) =~= result_amounts(
                    results@.take(i as int),
                ).push(results@[i as int].amount@));
                assert(dollar_values(values@) =~= dollar_values(values@.drop_last()).push(
                    values@.last()@,
                ));
            }
        }
        proof {
            assert(results@.take(n as int) =~= results@);
        }
        let total_split_value = DollarValue::sum(&values);
        let total = self.total.inner();
        let split = total_split_value.inner();
        DollarValue::new(dec_sub(total, split))
    }
}

/// One cent, `0.01`.
pub open spec fn cent() -> Dec {
    Dec { mantissa: 1, scale: 2, negative: false }
}

/// `Decimal::from(n)` for a count.
pub open spec fn count(n: nat) -> Dec {
    Dec { mantissa: n as i128, scale: 0, negative: false }
}

/// One cent is `10^26` units.
pub proof fn lemma_cent_units()
    ensures
        cent().units() == 100000000000000000000000000,
        cent().wf(),
{
    lemma_pow10_values();
    lemma_units_sign(cent());
    assert(ulp(2) == 100000000000000000000000000);
}

/// What each of `n` people would get of `extra`, cut to whole cents toward zero.
pub open spec fn even_share(extra: Dec, n: nat) -> Dec {
    round_dp_to_zero(decimal_div(extra, count(n)), 2)
}

/// What is left of `extra` after the even share is taken off it.
pub open spec fn leftover(extra: Dec, n: nat) -> Dec {
    decimal_sub(extra, even_share(extra, n))
}

/// The number of whole cents in the leftover (zero when it is negative or too large).
pub open spec fn extra_cents(extra: Dec, n: nat) -> nat {
    cents_count(decimal_div(leftover(extra, n), cent()))
}

/// The number of people who get an extra cent: the first ones, as many as there
/// are whole cents left over, and at most all of them.
pub open spec fn cents_given(extra: Dec, n: nat) -> nat {
    if extra_cents(extra, n) < n {
        extra_cents(extra, n)
    } else {
        n
    }
}

/// When the extra value is a whole number of cents, fewer than the people, the even
/// share is zero and the number of cents left is exact.
proof fn lemma_whole_cents_left(extra: Dec, n: int, quotient: Dec, each: Dec, left: Dec, cents: Dec)
    requires
        extra.wf(),
        1 <= n <= usize::MAX,
        0 <= extra.units() < n * 100000000000000000000000000,
        extra.units() % 100000000000000000000000000 == 0,
        quotient.wf(),
        extra.units() == 0 ==> quotient.units() == 0,
        abs(quotient.units() * (n * one_units()) - extra.units() * one_units()) * pow10(25) <= abs(
            extra.units() * one_units(),
        ) + pow10(25) * (n * one_units()),
        each == round_dp_to_zero(quotient, 2),
        fits_at(extra.units() - each.units(), max_scale(extra, each)) ==> left.units()
            == extra.units() - each.units(),
        left.wf(),
        left.units() % 100000000000000000000000000 == 0 && abs(
            left.units() / 100000000000000000000000000,
        ) < 0x1_0000_0000_0000_0000 ==> cents.units() == (left.units()
            / 100000000000000000000000000) * one_units(),
        cents.wf(),
    ensures
        each.units() == 0,
        left.units() == extra.units(),
        trunc(cents).mantissa == extra.units() / 100000000000000000000000000,
        match to_usize(trunc(cents)) {
            Some(k) => k as nat,
            None => 0nat,
        } == extra.units() / 100000000000000000000000000,
{
    lemma_pow10_values();
    lemma_round_dp_to_zero(quotient, 2);
    let e = extra.units();
    let q = quotient.units();
    let c = 100000000000000000000000000int;
    if e != 0 {
        // e <= (n - 1) cents, so q * n < n cents and q > -1
        assert(e <= (n - 1) * c) by (nonlinear_arith)
            requires
                0 < e < n * c,
                e % c == 0,
                c > 0,
        {
            let k = e / c;
            assert(e == k * c);
            assert(k < n) by (nonlinear_arith)
                requires
                    e == k * c,
                    e < n * c,
                    c > 0,
            ;
        }
        assert(abs(q * n - e) * pow10(25) <= e + pow10(25) * n) by (nonlinear_arith)
            requires
                abs(q * (n * one_units()) - e * one_units()) * pow10(25) <= abs(e * one_units())
                    + pow10(25) * (n * one_units()),
                e >= 0,
                n >= 1,
                one_units() == 10000000000000000000000000000,
        ;
        assert(q < c) by (nonlinear_arith)
            requires
                abs(q * n - e) * pow10(25) <= e + pow10(25) * n,
                e <= (n - 1) * c,
                1 <= n <= usize::MAX,
                usize::MAX <= 0xffff_ffff_ffff_ffff,
                pow10(25) == 10000000000000000000000000,
                c == 100000000000000000000000000,
        ;
        assert(q > -c) by (nonlinear_arith)
            requires
                abs(q * n - e) * pow10(25) <= e + pow10(25) * n,
                e >= 0,
                1 <= n,
                pow10(25) == 10000000000000000000000000,
                c == 100000000000000000000000000,
        ;
    }
    // the even share is a whole number of cents below one cent: zero
    assert(abs(each.units()) < c);
    assert(each.units() % c == 0);
    assert(each.units() == 0) by {
        let w = each.units();
        if w != 0 {
            if w > 0 {
                vstd::arithmetic::div_mod::lemma_small_mod(w as nat, c as nat);
            } else {
                vstd::arithmetic::div_mod::lemma_small_mod((w + c) as nat, c as nat);
                vstd::arithmetic::div_mod::lemma_mod_multiples_vanish(-1, w + c, c);
                assert(c * -1 + (w + c) == w);
            }
        }
    }
    // taking off zero is exact: the extra value itself fits at its scale, and at a
    // scale of 2 or below any whole number of cents under 2^64 cents fits
    let m = max_scale(extra, each);
    assert(fits_at(e - each.units(), m)) by {
        if extra.scale >= each.scale {
            lemma_units_sign(extra);
            assert(abs(e) < mantissa_limit() * ulp(m)) by (nonlinear_arith)
                requires
                    abs(e) == abs(extra.mantissa as int) * ulp(m),
                    abs(extra.mantissa as int) < mantissa_limit(),
                    ulp(m) >= 1,
            ;
        } else {
            assert(m <= 2);
            crate::decimal::lemma_pow10_monotone(26, (28 - m) as nat);
            assert(ulp(m) >= c);
            assert(e < mantissa_limit() * c) by (nonlinear_arith)
                requires
                    0 <= e < n * c,
                    n <= usize::MAX,
                    usize::MAX <= 0xffff_ffff_ffff_ffff,
                    c == 100000000000000000000000000,
                    mantissa_limit() == 79228162514264337593543950336,
            ;
            assert(mantissa_limit() * c <= mantissa_limit() * ulp(m)) by (nonlinear_arith)
                requires
                    ulp(m) >= c,
                    mantissa_limit() > 0,
            ;
        }
    }
    assert(left.units() == e);
    let k = e / c;
    assert(e == k * c && 0 <= k < n) by (nonlinear_arith)
        requires
            0 <= e < n * c,
            e % c == 0,
            c > 0,
            k == e / c,
    ;
    assert(cents.units() == k * one_units());
    crate::decimal::lemma_trunc(cents);
    assert(cents.units() % one_units() == 0) by {
        vstd::arithmetic::div_mod::lemma_mod_multiples_basic(k, one_units());
    }
    assert(trunc(cents).units() == k * one_units());
    assert(trunc(cents).mantissa == k) by (nonlinear_arith)
        requires
            trunc(cents).units() == trunc(cents).mantissa * one_units(),
            trunc(cents).units() == k * one_units(),
            one_units() > 0,
    ;
    lemma_units_sign(cents);
}

/// The number of cents that `distribute_extra_value` reads from the quotient of
/// what is left by one cent (none when it is negative or too large).
pub open spec fn cents_count(cents: Dec) -> nat {
    match to_usize(trunc(cents)) {
        Some(k) => k as nat,
        None => 0,
    }
}

/// Dividing what is left by one cent is exact, so the count of cents read from it
/// is the whole number of cents in it (or none).
proof fn lemma_cents_count(left: Dec, cents: Dec)
    requires
        left.wf(),
        abs(left.units()) * 100 <= max_units(),
        cents.wf(),
        (left.units() * one_units()) % 100000000000000000000000000 == 0 && representable(
            (left.units() * one_units()) / 100000000000000000000000000,
            28,
        ) ==> cents.units() == (left.units() * one_units()) / 100000000000000000000000000,
    ensures
        cents.units() == left.units() * 100,
        cents_count(cents) == 0 || cents_count(cents) * 100000000000000000000000000
            <= left.units(),
        left.units() < 100000000000000000000000000 ==> cents_count(cents) == 0,
{
    lemma_pow10_values();
    let c = 100000000000000000000000000int;
    let o = one_units();
    let l = left.units();
    let v = l * 100;
    assert(l * o == v * c) by (nonlinear_arith)
        requires
            v == l * 100,
            o == 10000000000000000000000000000,
            c == 100000000000000000000000000,
    ;
    assert((l * o) % c == 0 && (l * o) / c == v) by {
        vstd::arithmetic::div_mod::lemma_mod_multiples_basic(v, c);
        vstd::arithmetic::div_mod::lemma_div_multiples_vanish(v, c);
    }
    lemma_units_sign(left);
    let sl = left.scale as nat;
    let m = left.mantissa as int;
    assert(l == m * ulp(sl));
    if sl >= 2 {
        let s2 = (sl - 2) as nat;
        crate::decimal::lemma_pow10_add((28 - sl) as nat, 2);
        assert(ulp(s2) == ulp(sl) * 100);
        assert(v == m * ulp(s2)) by (nonlinear_arith)
            requires
                v == l * 100,
                l == m * ulp(sl),
                ulp(s2) == ulp(sl) * 100,
        ;
        assert(v % ulp(s2) == 0) by {
            vstd::arithmetic::div_mod::lemma_mod_multiples_basic(m, ulp(s2));
        }
        assert(abs(v) < mantissa_limit() * ulp(s2)) by (nonlinear_arith)
            requires
                v == m * ulp(s2),
                abs(m) < mantissa_limit(),
                ulp(s2) >= 1,
        ;
        assert(representable(v, 28));
    } else {
        let k = (2 - sl) as nat;
        crate::decimal::lemma_pow10_add(28, k);
        assert((28 - sl) as nat == 28 + k - 2);
        crate::decimal::lemma_pow10_add((26 + k) as nat, 2);
        assert(ulp(sl) * 100 == pow10(28) * pow10(k));
        assert(v == (m * pow10(k) as int) * ulp(0)) by (nonlinear_arith)
            requires
                v == l * 100,
                l == m * ulp(sl),
                ulp(sl) * 100 == pow10(28) * pow10(k),
                ulp(0) == pow10(28),
        ;
        assert(v % ulp(0) == 0) by {
            vstd::arithmetic::div_mod::lemma_mod_multiples_basic(m * pow10(k) as int, ulp(0));
        }
        assert(abs(v) < mantissa_limit() * ulp(0)) by (nonlinear_arith)
            requires
                v == l * 100,
                abs(l) * 100 <= max_units(),
                max_units() == (mantissa_limit() - 1) * one_units(),
                ulp(0) == one_units(),
                one_units() > 0,
        ;
        assert(representable(v, 28));
    }
    assert(cents.units() == v);
    crate::decimal::lemma_trunc(cents);
    lemma_round_dp_to_zero(cents, 0);
    lemma_units_sign(cents);
    let t = trunc(cents);
    assert(ulp(0) == o);
    if !cents.negative {
        assert(v >= 0);
        assert(t.units() <= v);
        assert(t.units() >= 0);
        assert(t.mantissa >= 0) by (nonlinear_arith)
            requires
                t.units() == t.mantissa * o,
                t.units() >= 0,
                o > 0,
        ;
        assert(t.mantissa * c <= l) by (nonlinear_arith)
            requires
                t.units() == t.mantissa * o,
                t.units() <= v,
                v == l * 100,
                o == 100 * c,
                c > 0,
        ;
    }
    if l < c {
        if cents_count(cents) != 0 {
            assert(!cents.negative);
            assert(t.mantissa * c <= l);
            assert(t.mantissa < 1) by (nonlinear_arith)
                requires
                    t.mantissa * c <= l,
                    l < c,
                    c > 0,
            ;
        }
    }
}

/// What is left of the extra value after its even share: below one cent when the
/// extra value is, and (taken off exactly) at most the extra value when that is
/// non-negative and below `2^96` cents.
proof fn lemma_leftover_facts(extra: Dec, n: int, quotient: Dec, each: Dec, left: Dec)
    requires
        extra.wf(),
        1 <= n <= usize::MAX,
        quotient.wf(),
        abs(quotient.units() * (n * one_units()) - extra.units() * one_units()) * pow10(25) <= abs(
            extra.units() * one_units(),
        ) + pow10(25) * (n * one_units()),
        n == 1 ==> quotient.units() == extra.units(),
        each == round_dp_to_zero(quotient, 2),
        fits_at(extra.units() - each.units(), max_scale(extra, each)) ==> left.units()
            == extra.units() - each.units(),
        close_to(left.units(), extra.units() - each.units()),
    ensures
        extra.units() < 100000000000000000000000000 ==> left.units() < 100000000000000000000000000,
        extra.units() >= 0 && fits_at(extra.units(), 2) ==> left.units() <= extra.units(),
{
    lemma_pow10_values();
    lemma_round_dp_to_zero(quotient, 2);
    let e = extra.units();
    let q = quotient.units();
    let w = each.units();
    let c = 100000000000000000000000000int;
    let d = 10000000000000000000000000int;
    let o = one_units();
    let x = e - w;
    let l = left.units();
    let m = max_scale(extra, each);
    assert(w % c == 0);
    assert(abs(l - x) * d <= abs(x) + d);
    // the quotient stays near e / n
    let y = q * n - e;
    assert(q * (n * o) - e * o == y * o) by (nonlinear_arith)
        requires
            y == q * n - e,
    ;
    assert(abs(y * o) == abs(y) * o && abs(e * o) == abs(e) * o) by (nonlinear_arith)
        requires
            o == 10000000000000000000000000000,
    ;
    assert(abs(y) * d <= abs(e) + d * n) by (nonlinear_arith)
        requires
            abs(y) * o * d <= abs(e) * o + d * (n * o),
            o == 10000000000000000000000000000,
            d > 0,
    ;
    assert(y * d <= abs(e) + d * n && -(y * d) <= abs(e) + d * n) by (nonlinear_arith)
        requires
            abs(y) * d <= abs(e) + d * n,
            d > 0,
    ;
    assert(q * n * d == y * d + e * d) by (nonlinear_arith)
        requires
            y == q * n - e,
    ;
    lemma_units_sign(extra);
    if e >= 0 {
        // the even share is not negative and at most a little above e
        assert(q * n * d <= e * d + e + d * n);
        assert(q * n * d >= e * d - e - d * n);
        assert(q >= -1) by (nonlinear_arith)
            requires
                q * n * d >= e * d - e - d * n,
                e >= 0,
                n >= 1,
                d > 1,
        ;
        assert(q * d <= e * d + e + d) by (nonlinear_arith)
            requires
                q * n * d <= e * d + e + d * n,
                n >= 1,
                e >= 0,
                d > 0,
        ;
        assert(w >= 0) by {
            if w < 0 {
                assert(q < 0);
                vstd::arithmetic::div_mod::lemma_small_mod((w + c) as nat, c as nat);
                vstd::arithmetic::div_mod::lemma_mod_multiples_vanish(-1, w + c, c);
                assert(c * -1 + (w + c) == w);
            }
        }
        assert(w <= q || w == 0);
        assert(x <= e);
        assert(-x * d <= e + d) by (nonlinear_arith)
            requires
                q * d <= e * d + e + d,
                w <= q || w == 0,
                x == e - w,
                e >= 0,
                d > 0,
        ;
        // so taking it off is exact when e is small or fits at two places
        if e < c || fits_at(e, 2) {
            assert(fits_at(x, m)) by {
                assert(ulp(m) >= 1) by {
                    crate::decimal::lemma_pow10_positive((28 - m) as nat);
                }
                if e < c {
                    assert(abs(x) < 2 * c) by (nonlinear_arith)
                        requires
                            x <= e,
                            -x * d <= e + d,
                            0 <= e < c,
                            c == 10 * d,
                            d > 1,
                    ;
                    assert(2 * c <= mantissa_limit() * ulp(m)) by (nonlinear_arith)
                        requires
                            ulp(m) >= 1,
                            mantissa_limit() == 79228162514264337593543950336,
                            c == 100000000000000000000000000,
                    ;
                } else {
                    // e fits at its own scale, or at two places; the smaller-scale case
                    // leaves ulp(m) at least a cent
                    let bound = if extra.scale >= each.scale {
                        mantissa_limit() * ulp(m)
                    } else {
                        mantissa_limit() * c
                    };
                    if extra.scale >= each.scale {
                        assert(e < bound) by (nonlinear_arith)
                            requires
                                e == abs(extra.mantissa as int) * ulp(m),
                                abs(extra.mantissa as int) < mantissa_limit(),
                                ulp(m) >= 1,
                                bound == mantissa_limit() * ulp(m),
                        ;
                    } else {
                        assert(m <= 2);
                        crate::decimal::lemma_pow10_monotone(26, (28 - m) as nat);
                        assert(bound <= mantissa_limit() * ulp(m)) by (nonlinear_arith)
                            requires
                                ulp(m) >= c,
                                mantissa_limit() > 0,
                                bound == mantissa_limit() * c,
                        ;
                    }
                    assert(bound >= 2) by (nonlinear_arith)
                        requires
                            bound == mantissa_limit() * ulp(m) || bound == mantissa_limit() * c,
                            ulp(m) >= 1,
                            mantissa_limit() == 79228162514264337593543950336,
                            c > 0,
                    ;
                    assert(abs(x) < bound) by (nonlinear_arith)
                        requires
                            x <= e,
                            -x * d <= e + d,
                            0 <= e < bound,
                            bound >= 2,
                            d > 1,
                    ;
                    assert(bound <= mantissa_limit() * ulp(m));
                }
            }
            assert(l == x);
        }
    } else {
        // a negative extra value leaves at most two units of 10^-28
        if n == 1 {
            assert(q == e);
            assert(w >= e && w <= 0);
        } else if q > 0 {
            assert(w >= 0);
        } else {
            assert(q * n * d >= e * d + e - d * n);
            assert(w >= q);
            assert((e - q) * n * d <= n * d) by (nonlinear_arith)
                requires
                    q * n * d >= e * d + e - d * n,
                    e < 0,
                    n >= 2,
                    d > 1,
            ;
            assert(e - q <= 1) by (nonlinear_arith)
                requires
                    (e - q) * n * d <= n * d,
                    n * d > 0,
            ;
        }
        assert(x <= 1);
        assert(l <= 2) by (nonlinear_arith)
            requires
                abs(l - x) * d <= abs(x) + d,
                x <= 1,
                d > 1,
        ;
    }
}

/// Dividing a decimal by one is exact.
proof fn lemma_divide_by_one(a: Dec, b: Dec, q: Dec)
    requires
        a.wf(),
        b.units() == one_units(),
        (a.units() * one_units()) % b.units() == 0 && representable(
            (a.units() * one_units()) / b.units(),
            28,
        ) ==> q.units() == (a.units() * one_units()) / b.units(),
    ensures
        q.units() == a.units(),
{
    lemma_pow10_values();
    let e = a.units();
    let o = one_units();
    assert((e * o) % o == 0 && (e * o) / o == e) by {
        vstd::arithmetic::div_mod::lemma_mod_multiples_basic(e, o);
        vstd::arithmetic::div_mod::lemma_div_multiples_vanish(e, o);
    }
    lemma_units_sign(a);
    let s = a.scale as nat;
    assert(e % ulp(s) == 0) by {
        vstd::arithmetic::div_mod::lemma_mod_multiples_basic(a.mantissa as int, ulp(s));
    }
    assert(abs(e) < mantissa_limit() * ulp(s)) by (nonlinear_arith)
        requires
            abs(e) == abs(a.mantissa as int) * ulp(s),
            abs(a.mantissa as int) < mantissa_limit(),
            ulp(s) >= 1,
    ;
    assert(representable(e, 28));
}

/// A count of cents read from `v` units of one and a fraction of one is `v`.
proof fn lemma_count_of_whole(cents: Dec, v: int, g: int)
    requires
        cents.wf(),
        0 <= v <= usize::MAX,
        0 <= g < one_units(),
        cents.units() == v * one_units() + g,
    ensures
        cents_count(cents) == v,
{
    lemma_pow10_values();
    let o = one_units();
    crate::decimal::lemma_trunc(cents);
    lemma_round_dp_to_zero(cents, 0);
    assert(ulp(0) == o);
    let t = trunc(cents);
    let u = t.units();
    // the integral part is the multiple of one at or just below the value
    assert(u % o == 0 && 0 <= u <= cents.units() && cents.units() - u < o);
    assert(u == v * o) by {
        vstd::arithmetic::div_mod::lemma_fundamental_div_mod(u, o);
        let uq = u / o;
        assert(u == o * uq);
        assert(v - 1 < uq < v + 1) by (nonlinear_arith)
            requires
                u == o * uq,
                v * o <= v * o + g,
                v * o + g - o < u <= v * o + g,
                0 <= g < o,
                o > 0,
        ;
    }
    assert(t.mantissa == v) by (nonlinear_arith)
        requires
            u == t.mantissa * o,
            u == v * o,
            o > 0,
    ;
    lemma_units_sign(cents);
    if v > 0 {
        assert(cents.units() > 0) by (nonlinear_arith)
            requires
                cents.units() == v * o + g,
                v > 0,
                g >= 0,
                o > 0,
        ;
        assert(!cents.negative);
    }
    assert(usize::MAX <= u64::MAX);
}

/// Whether the even share of an extra value of `k` cents and `f` units (under a
/// cent) among `n` people is surely `floor(k / n)` cents: the quotient is only known
/// to within `10 k + n + 10` units, so it must lie that far from the cents on either
/// side (or be exact: a whole number of cents that `n` divides).
pub open spec fn share_is_clear(k: int, f: int, n: int) -> bool {
    let b = 10 * k + n + 10;
    &&& k % n != 0 || f == 0 || f > b
    &&& k % n != n - 1 || f + b < 100000000000000000000000000
}

/// A whole number of cents (up to `10^24` of them) always has a clear even share.
pub proof fn lemma_whole_cents_clear(k: int, n: int)
    requires
        0 <= k <= 1000000000000000000000000,
        1 <= n <= usize::MAX,
    ensures
        share_is_clear(k, 0, n),
{
}

/// An extra value of `k` cents and `f` units (`k` up to `10^24`) among `n` people,
/// with a clear even share: the even share is `floor(k / n)` cents, so
/// `k - floor(k / n)` cents are counted (none when that does not fit in a `usize`).
proof fn lemma_whole_cents_count(
    extra: Dec,
    n: int,
    quotient: Dec,
    each: Dec,
    left: Dec,
    cents: Dec,
)
    requires
        extra.wf(),
        1 <= n <= usize::MAX,
        extra.units() >= 0,
        extra.units() / 100000000000000000000000000 <= 1000000000000000000000000,
        share_is_clear(
            extra.units() / 100000000000000000000000000,
            extra.units() % 100000000000000000000000000,
            n,
        ),
        quotient.wf(),
        abs(quotient.units() * (n * one_units()) - extra.units() * one_units()) * pow10(25) <= abs(
            extra.units() * one_units(),
        ) + pow10(25) * (n * one_units()),
        (extra.units() * one_units()) % (n * one_units()) == 0 && representable(
            (extra.units() * one_units()) / (n * one_units()),
            28,
        ) ==> quotient.units() == (extra.units() * one_units()) / (n * one_units()),
        each == round_dp_to_zero(quotient, 2),
        fits_at(extra.units() - each.units(), max_scale(extra, each)) ==> left.units()
            == extra.units() - each.units(),
        left.wf(),
        abs(left.units()) * 100 <= max_units(),
        cents.wf(),
        (left.units() * one_units()) % 100000000000000000000000000 == 0 && representable(
            (left.units() * one_units()) / 100000000000000000000000000,
            28,
        ) ==> cents.units() == (left.units() * one_units()) / 100000000000000000000000000,
    ensures
        ({
            let k = extra.units() / 100000000000000000000000000;
            &&& each.units() == (k / n) * 100000000000000000000000000
            &&& k - k / n <= usize::MAX ==> cents_count(cents) == k - k / n
            &&& k - k / n > usize::MAX ==> cents_count(cents) == 0
        }),
{
    lemma_pow10_values();
    lemma_round_dp_to_zero(quotient, 2);
    let c = 100000000000000000000000000int;
    let d = 10000000000000000000000000int;
    let o = one_units();
    let e = extra.units();
    let q = quotient.units();
    let w = each.units();
    let k = e / c;
    let f = e % c;
    let j = k / n;
    let r = k % n;
    let b = 10 * k + n + 10;
    assert(e == k * c + f && 0 <= f < c) by {
        vstd::arithmetic::div_mod::lemma_fundamental_div_mod(e, c);
    }
    assert(k >= 0) by {
        if k < 0 {
            assert(k * c <= -c) by (nonlinear_arith)
                requires
                    k <= -1,
                    c > 0,
            ;
        }
    }
    assert(k == j * n + r && 0 <= r < n) by {
        vstd::arithmetic::div_mod::lemma_fundamental_div_mod(k, n);
    }
    assert(0 <= j) by {
        if j < 0 {
            assert(j * n <= -n) by (nonlinear_arith)
                requires
                    j <= -1,
                    n >= 1,
            ;
        }
    }
    assert(j <= k) by (nonlinear_arith)
        requires
            k == j * n + r,
            0 <= r,
            n >= 1,
            j >= 0,
    ;
    assert(w % c == 0 && ulp(2) == c);
    // the even share is j cents
    if r == 0 && f == 0 {
        assert(e * o == (j * c) * (n * o)) by (nonlinear_arith)
            requires
                e == k * c + f,
                f == 0,
                k == j * n + r,
                r == 0,
        ;
        assert((e * o) % (n * o) == 0 && (e * o) / (n * o) == j * c) by {
            assert(n * o > 0) by (nonlinear_arith)
                requires
                    n >= 1,
                    o > 0,
            ;
            vstd::arithmetic::div_mod::lemma_mod_multiples_basic(j * c, n * o);
            vstd::arithmetic::div_mod::lemma_div_multiples_vanish(j * c, n * o);
        }
        assert((j * c) % ulp(2) == 0) by {
            vstd::arithmetic::div_mod::lemma_mod_multiples_basic(j, c);
        }
        assert(abs(j * c) < mantissa_limit() * ulp(2)) by (nonlinear_arith)
            requires
                0 <= j <= 1000000000000000000000000,
                ulp(2) == c,
                c > 0,
                mantissa_limit() == 79228162514264337593543950336,
        ;
        assert(representable(j * c, 28));
        assert(q == j * c);
        assert(q % ulp(2) == 0);
        assert(w == j * c);
    } else {
        let y = q * n - e;
        assert(q * (n * o) - e * o == y * o) by (nonlinear_arith)
            requires
                y == q * n - e,
        ;
        assert(abs(y * o) == abs(y) * o && abs(e * o) == abs(e) * o) by (nonlinear_arith)
            requires
                o == 10000000000000000000000000000,
        ;
        assert(abs(y) * d <= e + d * n) by (nonlinear_arith)
            requires
                abs(y) * o * d <= abs(e) * o + d * (n * o),
                e >= 0,
                o == 10000000000000000000000000000,
                d > 0,
        ;
        // the quotient is known to within b units of e / n
        assert(abs(y) < b) by (nonlinear_arith)
            requires
                abs(y) * d <= e + d * n,
                e == k * c + f,
                0 <= f < c,
                c == 10 * d,
                d > 0,
                b == 10 * k + n + 10,
        ;
        assert(b < c) by (nonlinear_arith)
            requires
                b == 10 * k + n + 10,
                0 <= k <= 1000000000000000000000000,
                n <= 18446744073709551615,
                c == 100000000000000000000000000,
        ;
        // and e / n lies more than b / n inside the cent from j to j + 1
        assert(r * c + f > b) by {
            if r == 0 {
                assert(f > b);
            } else {
                assert(r * c >= c) by (nonlinear_arith)
                    requires
                        r >= 1,
                        c > 0,
                ;
            }
        }
        assert((n - r) * c - f > b) by {
            if r == n - 1 {
                assert(f + b < c);
            } else {
                assert((n - r) * c >= 2 * c) by (nonlinear_arith)
                    requires
                        n - r >= 2,
                        c > 0,
                ;
            }
        }
        assert(e - j * c * n == r * c + f) by (nonlinear_arith)
            requires
                e == k * c + f,
                k == j * n + r,
        ;
        assert((j + 1) * c * n - e == (n - r) * c - f) by (nonlinear_arith)
            requires
                e == k * c + f,
                k == j * n + r,
        ;
        assert(j * c * n < q * n < (j + 1) * c * n);
        assert(j * c < q < (j + 1) * c) by (nonlinear_arith)
            requires
                j * c * n < q * n < (j + 1) * c * n,
                n >= 1,
        ;
        assert(w == j * c) by {
            vstd::arithmetic::div_mod::lemma_fundamental_div_mod(w, c);
            let wc = w / c;
            assert(w == c * wc);
            assert(j * c - c < w < (j + 1) * c);
            assert(j - 1 < wc < j + 1) by (nonlinear_arith)
                requires
                    w == c * wc,
                    j * c - c < w < (j + 1) * c,
                    c > 0,
            ;
        }
    }
    // taking j cents off is exact
    let x = e - w;
    assert(x == (k - j) * c + f) by (nonlinear_arith)
        requires
            x == e - w,
            e == k * c + f,
            w == j * c,
    ;
    assert(0 <= x <= e) by (nonlinear_arith)
        requires
            x == (k - j) * c + f,
            0 <= j <= k,
            0 <= f,
            c > 0,
            e == k * c + f,
    ;
    let m = max_scale(extra, each);
    assert(fits_at(x, m)) by {
        lemma_units_sign(extra);
        if extra.scale >= each.scale {
            assert(e < mantissa_limit() * ulp(m)) by (nonlinear_arith)
                requires
                    e == abs(extra.mantissa as int) * ulp(m),
                    abs(extra.mantissa as int) < mantissa_limit(),
                    ulp(m) >= 1,
            ;
        } else {
            assert(m <= 2);
            crate::decimal::lemma_pow10_monotone(26, (28 - m) as nat);
            assert(e < mantissa_limit() * ulp(m)) by (nonlinear_arith)
                requires
                    e == k * c + f,
                    0 <= f < c,
                    0 <= k <= 1000000000000000000000000,
                    ulp(m) >= c,
                    c == 100000000000000000000000000,
                    mantissa_limit() == 79228162514264337593543950336,
            ;
        }
    }
    assert(left.units() == x);
    // and the count of cents in what is left is k - j
    lemma_cents_count(left, cents);
    assert(cents.units() == (k - j) * o + 100 * f) by (nonlinear_arith)
        requires
            cents.units() == left.units() * 100,
            left.units() == (k - j) * c + f,
            o == 100 * c,
    ;
    assert(0 <= 100 * f < o);
    if k - j <= usize::MAX {
        lemma_count_of_whole(cents, k - j, 100 * f);
    } else {
        crate::decimal::lemma_trunc(cents);
        lemma_round_dp_to_zero(cents, 0);
        assert(ulp(0) == o);
        let u = trunc(cents).units();
        assert(u > usize::MAX * o) by {
            vstd::arithmetic::div_mod::lemma_fundamental_div_mod(u, o);
            let uq = u / o;
            assert(u == o * uq);
            assert(uq >= k - j) by (nonlinear_arith)
                requires
                    u == o * uq,
                    (k - j) * o + 100 * f - o < u,
                    0 <= 100 * f < o,
                    o > 0,
            ;
            assert(u >= (k - j) * o) by (nonlinear_arith)
                requires
                    u == o * uq,
                    uq >= k - j,
                    o > 0,
            ;
            assert((k - j) * o > usize::MAX * o) by (nonlinear_arith)
                requires
                    k - j > usize::MAX,
                    o > 0,
            ;
        }
        assert(trunc(cents).mantissa > usize::MAX) by (nonlinear_arith)
            requires
                u == trunc(cents).mantissa * o,
                u > usize::MAX * o,
                o > 0,
        ;
    }
}

/// A bound on a quotient in decimal arithmetic that `distribute_extra_value` relies on.
proof fn lemma_div_bound(a: Dec, b: Dec, bu: int)
    requires
        a.wf(),
        b.wf(),
        b.units() == bu,
        bu >= one_units(),
        abs(decimal_div(a, b).units() * bu - a.units() * one_units()) * pow10(25) <= abs(
            a.units() * one_units(),
        ) + pow10(25) * bu,
        pow10(25) == 10000000000000000000000000,
    ensures
        abs(decimal_div(a, b).units()) * bu <= abs(a.units()) * one_units() + abs(a.units())
            * one_units() / pow10(25) as int + bu,
        abs(decimal_div(a, b).units()) <= abs(a.units()) + abs(a.units()) / pow10(25) as int + 1,
{
    let q = decimal_div(a, b).units();
    let x = a.units();
    let xo = abs(x * one_units());
    assert(xo == abs(x) * one_units()) by (nonlinear_arith)
        requires
            xo == abs(x * one_units()),
    ;
    assert(abs(q * bu) == abs(q) * bu) by (nonlinear_arith)
        requires
            bu > 0,
    ;
    assert(abs(q) * bu <= xo + xo / pow10(25) as int + bu);
    assert(abs(q) <= abs(x) + abs(x) / pow10(25) as int + 1) by (nonlinear_arith)
        requires
            abs(q) * bu <= xo + xo / pow10(25) as int + bu,
            xo == abs(x) * one_units(),
            bu >= one_units(),
            one_units() == 10000000000000000000000000000,
            pow10(25) == 10000000000000000000000000,
    ;
}

/// What is left of the extra value after its even share is taken off has at most
/// the magnitude of the extra value (up to rounding), so a hundredfold of it fits.
proof fn lemma_leftover_bound(e: int, n: int, q: int, each: int, left: int)
    requires
        n >= 1,
        abs(q * (n * one_units()) - e * one_units()) * pow10(25) <= abs(e * one_units()) + pow10(
            25,
        ) * (n * one_units()),
        pow10(25) == 10000000000000000000000000,
        abs(each) <= abs(q),
        q >= 0 ==> each >= 0,
        q <= 0 ==> each <= 0,
        close_to(left, e - each),
        abs(e) * 101 <= max_units(),
    ensures
        abs(left) * 100 <= max_units(),
{
    let d = 10000000000000000000000000int;
    let o = one_units();
    let y = q * n - e;
    assert(q * (n * o) - e * o == y * o) by (nonlinear_arith)
        requires
            y == q * n - e,
    ;
    assert(abs(y * o) == abs(y) * o && abs(e * o) == abs(e) * o) by (nonlinear_arith)
        requires
            o == 10000000000000000000000000000,
    ;
    assert(abs(y) * d <= abs(e) + d * n) by (nonlinear_arith)
        requires
            abs(y) * o * d <= abs(e) * o + d * (n * o),
            o == 10000000000000000000000000000,
            d > 0,
    ;
    assert(y * d <= abs(e) + d * n && -(y * d) <= abs(e) + d * n) by (nonlinear_arith)
        requires
            abs(y) * d <= abs(e) + d * n,
            d > 0,
    ;
    assert(q * n * d == y * d + e * d) by (nonlinear_arith)
        requires
            y == q * n - e,
    ;
    // the even share has the sign of the quotient, which stays near e / n
    let x = e - each;
    if e >= 0 {
        if q >= 0 {
            assert(q * n * d <= e * d + e + d * n);
            assert(q * d <= e * d + e + d) by (nonlinear_arith)
                requires
                    q * n * d <= e * d + e + d * n,
                    n >= 1,
                    e >= 0,
                    q >= 0,
                    d > 0,
            ;
        } else {
            assert(q * n * d >= e * d - e - d * n);
            assert(q >= -1) by (nonlinear_arith)
                requires
                    q * n * d >= e * d - e - d * n,
                    e >= 0,
                    n >= 1,
                    d > 1,
            ;
        }
    } else {
        if q <= 0 {
            assert(q * n * d >= e * d + e - d * n);
            assert(q * d >= e * d + e - d) by (nonlinear_arith)
                requires
                    q * n * d >= e * d + e - d * n,
                    n >= 1,
                    e < 0,
                    q <= 0,
                    d > 0,
            ;
        } else {
            assert(q * n * d <= e * d - e + d * n);
            assert(q <= 1) by (nonlinear_arith)
                requires
                    q * n * d <= e * d - e + d * n,
                    e < 0,
                    n >= 1,
                    d > 1,
            ;
        }
    }
    assert(abs(x) * d <= abs(e) * d + abs(e) + d);
    assert(abs(left) * 100 <= max_units()) by (nonlinear_arith)
        requires
            abs(left - x) * d <= abs(x) + d,
            abs(x) * d <= abs(e) * d + abs(e) + d,
            abs(e) * 101 <= max_units(),
            d == 10000000000000000000000000,
    {
        assert(abs(left) * d <= abs(x) * d + abs(x) + d);
        assert(abs(left) * d * d <= abs(x) * d * d + abs(x) * d + d * d);
        assert(abs(left) * d * d <= (abs(e) * d + abs(e) + d) * (d + 1) + d * d);
    }
}

/// The shares of `total` by `ratios` before any cent is handed out.
pub open spec fn shares(ratios: Seq<Dec>, total: Dec) -> Seq<Dec> {
    ratios.map_values(|r: Dec| share_of(r, total))
}

/// The ratios add up to one: within `0.000001` of it, and at most one.
pub open spec fn ratios_add_up(ratios: Seq<Dec>) -> bool {
    one_units() - 10000000000000000000000 <= units_sum(ratios) <= one_units()
}

/// No decimal operation of a split of `total` by `ratios` overflows: no step of the
/// running sum of the shares, nor what is left of the total after them, and a
/// hundred-and-one-fold of that fits (it is divided by a cent); and no share that
/// gets a cent overflows by it.
pub open spec fn split_fits(ratios: Seq<Dec>, total: Dec) -> bool {
    let sh = shares(ratios, total);
    let extra = decimal_sub(total, fold_sum(sh));
    &&& running_sums_fit(sh)
    &&& abs(total.units() - fold_sum(sh).units()) <= max_units()
    &&& abs(extra.units()) * 101 <= max_units()
    &&& forall|i: int|
        0 <= i < cents_given(extra, ratios.len()) ==> abs(
            (#[trigger] sh[i]).units() + 100000000000000000000000000,
        ) <= max_units()
}

/// A condition on the total alone under which no decimal operation of a split
/// overflows: it stays below `0.9999` of the largest decimal, which leaves room for
/// the rounding of the products, the running sum and the cents.
pub open spec fn total_has_headroom(total: Dec) -> bool {
    abs(total.units()) * 10000 <= max_units() * 9999
}

/// `amount` is the share of `ratio` in `total` (the exact product cut to whole cents
/// toward zero) or one cent more, and a whole number of cents.
pub open spec fn shares_bracket(ratio: Dec, total: Dec, amount: Dec) -> bool {
    let share = share_of(ratio, total).units();
    &&& share * one_units() <= ratio.units() * total.units()
    &&& ratio.units() * total.units() < share * one_units() + 1000000000000000000000000000000000000000000000000000000
    &&& share <= amount.units() <= share + 100000000000000000000000000
    &&& amount.units() % 100000000000000000000000000 == 0
}

/// One person's share before the cents are handed out: the ratio times the total,
/// cut to whole cents toward zero.
pub open spec fn share_of(ratio: Dec, total: Dec) -> Dec {
    round_dp_to_zero(decimal_mul(ratio, total), 2)
}

/// What `split` gives the person at `i`: the share, plus one cent for the first
/// ones while whole cents are left over.
pub open spec fn split_amount(ratios: Seq<Dec>, total: Dec, i: int) -> Dec {
    let sh = shares(ratios, total);
    let extra = decimal_sub(total, fold_sum(sh));
    if i < cents_given(extra, ratios.len()) {
        decimal_add(sh[i], cent())
    } else {
        sh[i]
    }
}

/// The shares, each cut to whole cents from an exact product of a ratio and a
/// non-negative total, add up to at most the total and fall short of it by less than
/// one cent per share.
proof fn lemma_exact_shares(ratios: Seq<Dec>, amounts: Seq<Dec>, total: Dec, k: int)
    requires
        ratios.len() == amounts.len(),
        0 <= k <= ratios.len(),
        total.units() >= 0,
        forall|j: int|
            0 <= j < ratios.len() ==> {
                &&& 0 <= (#[trigger] amounts[j]).units()
                &&& amounts[j].units() * one_units() <= ratios[j].units() * total.units()
                &&& ratios[j].units() * total.units() < amounts[j].units() * one_units()
                    + 1000000000000000000000000000000000000000000000000000000
                &&& amounts[j].units() % 100000000000000000000000000 == 0
                &&& amounts[j].scale <= 2
            },
    ensures
        units_sum(amounts.take(k)) * one_units() <= units_sum(ratios.take(k)) * total.units(),
        k >= 1 ==> units_sum(ratios.take(k)) * total.units() < units_sum(amounts.take(k))
            * one_units() + k * 1000000000000000000000000000000000000000000000000000000,
        units_sum(amounts.take(k)) >= 0,
        abs_units_sum(amounts.take(k)) == units_sum(amounts.take(k)),
        units_sum(amounts.take(k)) % 100000000000000000000000000 == 0,
        seq_max_scale(amounts.take(k)) <= 2,
    decreases k,
{
    if k == 0 {
        assert(amounts.take(0) =~= Seq::<Dec>::empty());
        assert(ratios.take(0) =~= Seq::<Dec>::empty());
    } else {
        let j = k - 1;
        lemma_exact_shares(ratios, amounts, total, j);
        assert(amounts.take(k).drop_last() =~= amounts.take(j));
        assert(ratios.take(k).drop_last() =~= ratios.take(j));
        let a = amounts[j].units();
        let r = ratios[j].units();
        let t = total.units();
        let ua = units_sum(amounts.take(j));
        let ur = units_sum(ratios.take(j));
        assert(units_sum(amounts.take(k)) == ua + a);
        assert(units_sum(ratios.take(k)) == ur + r);
        assert((ua + a) * one_units() == ua * one_units() + a * one_units()) by (nonlinear_arith);
        assert((ur + r) * t == ur * t + r * t) by (nonlinear_arith);
        assert(k * 1000000000000000000000000000000000000000000000000000000 == j
            * 1000000000000000000000000000000000000000000000000000000
            + 1000000000000000000000000000000000000000000000000000000) by (nonlinear_arith)
            requires
                k == j + 1,
        ;
        let c = 100000000000000000000000000int;
        assert((ua + a) % c == 0) by {
            vstd::arithmetic::div_mod::lemma_add_mod_noop(ua, a, c);
        }
    }
}

/// Raising the first `k` amounts by one cent each raises their sum by `k` cents.
proof fn lemma_sum_with_cents(before: Seq<Dec>, after: Seq<Dec>, k: int, m: int)
    requires
        before.len() == after.len(),
        0 <= k <= before.len(),
        0 <= m <= before.len(),
        forall|i: int|
            0 <= i < before.len() ==> (#[trigger] after[i]).units() == before[i].units() + (if i
                < k {
                100000000000000000000000000int
            } else {
                0
            }),
    ensures
        units_sum(after.take(m)) == units_sum(before.take(m)) + (if m < k {
            m
        } else {
            k
        }) * 100000000000000000000000000,
    decreases m,
{
    if m == 0 {
        assert(after.take(0) =~= Seq::<Dec>::empty());
        assert(before.take(0) =~= Seq::<Dec>::empty());
    } else {
        lemma_sum_with_cents(before, after, k, m - 1);
        assert(after.take(m).drop_last() =~= after.take(m - 1));
        assert(before.take(m).drop_last() =~= before.take(m - 1));
        assert(after[m - 1].units() == before[m - 1].units() + (if m - 1 < k {
            100000000000000000000000000int
        } else {
            0
        }));
    }
}

/// When the ratios add up to exactly one, the total is non-negative with at most two
/// decimal places and all products are exact, the split amounts add up to the total
/// and each is within a cent of its exact share.
#[verifier::rlimit(40)]
/// What every successful split gives: whole cents; each amount is its share, or
/// one cent more when that is exact (below `2^96` cents); of two people with the
/// same ratio the earlier gets at most a cent more and never less; and a
/// non-negative whole-cent total whose shares fall short of it by fewer cents than
/// there are people is handed out exactly.
proof fn lemma_split_general(
    vals: Seq<Dec>,
    before: Seq<UserSplitResult>,
    after: Seq<UserSplitResult>,
    total: Dec,
    extra: Dec,
)
    requires
        vals.len() == before.len(),
        total.wf(),
        forall|j: int| 0 <= j < vals.len() ==> in_unit_range(#[trigger] vals[j]),
        forall|j: int|
            0 <= j < vals.len() ==> (#[trigger] decimal_mul(vals[j], total)).wf() && abs(
                decimal_mul(vals[j], total).units() * one_units() - vals[j].units() * total.units(),
            ) * pow10(25) <= abs(vals[j].units() * total.units()) + pow10(25) * one_units(),
        forall|j: int|
            0 <= j < vals.len() ==> (#[trigger] before[j]).amount@ == share_of(vals[j], total),
        forall|j1: int, j2: int|
            0 <= j1 < vals.len() && 0 <= j2 < vals.len() && vals[j1].units() == vals[j2].units()
                ==> #[trigger] decimal_mul(vals[j1], total).units() == #[trigger] decimal_mul(
                vals[j2],
                total,
            ).units(),
        ({
            let p = fold_sum(result_amounts(before));
            &&& extra == decimal_sub(total, p)
            &&& sub_facts(total, p)
            &&& abs_units_sum(result_amounts(before)) < mantissa_limit() * ulp(
                seq_max_scale(result_amounts(before)),
            ) ==> p.units() == units_sum(result_amounts(before)) && p.scale <= seq_max_scale(
                result_amounts(before),
            )
        }),
        after.len() == before.len(),
        forall|i: int|
            0 <= i < after.len() ==> (#[trigger] after[i]).amount@ == (if i < cents_given(
                extra,
                before.len(),
            ) {
                decimal_add(before[i].amount@, cent())
            } else {
                before[i].amount@
            }),
        forall|i: int|
            0 <= i < cents_given(extra, before.len()) ==> #[trigger] add_facts(
                before[i].amount@,
                cent(),
            ),
        ({
            let e = extra.units();
            0 <= e < before.len() * 100000000000000000000000000 && e % 100000000000000000000000000
                == 0 ==> cents_given(extra, before.len()) == e / 100000000000000000000000000
        }),
    ensures
        forall|i: int|
            0 <= i < after.len() ==> (#[trigger] after[i]).amount@.units()
                % 100000000000000000000000000 == 0,
        forall|i: int|
            0 <= i < after.len() && fits_at(
                shares(vals, total)[i].units() + 100000000000000000000000000,
                2,
            ) ==> shares(vals, total)[i].units() <= (#[trigger] after[i]).amount@.units()
                <= shares(vals, total)[i].units() + 100000000000000000000000000,
        forall|i: int, j: int|
            0 <= i < j < after.len() && vals[i].units() == vals[j].units() && fits_at(
                shares(vals, total)[i].units() + 100000000000000000000000000,
                2,
            ) ==> #[trigger] after[j].amount@.units() <= #[trigger] after[i].amount@.units()
                <= after[j].amount@.units() + 100000000000000000000000000,
        ({
            let t = total.units();
            t >= 0 && t % 100000000000000000000000000 == 0 && fits_at(t, 2) && 0 <= t - units_sum(
                shares(vals, total),
            ) < vals.len() * 100000000000000000000000000 ==> units_sum(result_amounts(after)) == t
        }),
{
    lemma_pow10_values();
    lemma_cent_units();
    let n = vals.len() as int;
    let t = total.units();
    let c = 100000000000000000000000000int;
    let amounts = result_amounts(before);
    let k = cents_given(extra, before.len());
    assert(amounts =~= shares(vals, total));
    assert forall|j: int| 0 <= j < n implies (#[trigger] amounts[j]).units() % c == 0
        && amounts[j].scale <= 2 && amounts[j].wf() by {
        assert(amounts[j] == before[j].amount@);
        lemma_round_dp_to_zero(decimal_mul(vals[j], total), 2);
    }
    // each result is its share, or the share and a cent added
    assert forall|i: int| 0 <= i < n implies {
        &&& (#[trigger] after[i]).amount@.units() % c == 0
        &&& fits_at(amounts[i].units() + c, 2) ==> amounts[i].units() <= after[i].amount@.units()
            <= amounts[i].units() + c
        &&& after[i].amount@.units() == amounts[i].units() + (if i < k {
            c
        } else {
            0
        }) || !fits_at(amounts[i].units() + c, 2)
    } by {
        assert(amounts[i] == before[i].amount@);
        assert(amounts[i].scale <= 2 && amounts[i].units() % c == 0);
        if i < k {
            assert(add_facts(before[i].amount@, cent()));
            let r = decimal_add(amounts[i], cent());
            assert(max_scale(amounts[i], cent()) == 2);
            assert(r.scale <= 2);
            crate::decimal::lemma_multiple_of_pow10(r.mantissa as int, (28 - r.scale) as nat, 26);
            assert(r.units() % c == 0);
        }
    }
    assert forall|i: int, j: int|
        0 <= i < j < n && vals[i].units() == vals[j].units() && fits_at(
            shares(vals, total)[i].units() + c,
            2,
        ) implies #[trigger] after[j].amount@.units() <= #[trigger] after[i].amount@.units()
        <= after[j].amount@.units() + c by {
        assert(amounts[i] == before[i].amount@ && amounts[j] == before[j].amount@);
        assert(decimal_mul(vals[i], total).units() == decimal_mul(vals[j], total).units());
        lemma_round_value(decimal_mul(vals[i], total), decimal_mul(vals[j], total));
        assert(amounts[i].units() == amounts[j].units());
    }
    // the sum law
    if t >= 0 && t % c == 0 && fits_at(t, 2) && 0 <= t - units_sum(shares(vals, total)) < n * c {
        assert forall|j: int| 0 <= j < n implies {
            &&& 0 <= (#[trigger] amounts[j]).units()
            &&& amounts[j].units() % c == 0
            &&& amounts[j].scale <= 2
        } by {
            let p = decimal_mul(vals[j], total);
            let r = vals[j].units();
            assert(amounts[j] == before[j].amount@);
            lemma_round_dp_to_zero(p, 2);
            assert(r * t >= 0) by (nonlinear_arith)
                requires
                    r >= 0,
                    t >= 0,
            ;
            assert(p.units() >= -1) by (nonlinear_arith)
                requires
                    abs(p.units() * one_units() - r * t) * pow10(25) <= abs(r * t) + pow10(25)
                        * one_units(),
                    r * t >= 0,
                    pow10(25) == 10000000000000000000000000,
                    one_units() == 10000000000000000000000000000,
            ;
            if p.units() < 0 {
                let w = amounts[j].units();
                assert(w <= 0 && w >= -1);
                assert(w == 0) by {
                    if w != 0 {
                        vstd::arithmetic::div_mod::lemma_small_mod((w + c) as nat, c as nat);
                        vstd::arithmetic::div_mod::lemma_mod_multiples_vanish(-1, w + c, c);
                        assert(c * -1 + (w + c) == w);
                    }
                }
            }
        }
        assert(n >= 1) by {
            if n == 0 {
                assert(t - units_sum(shares(vals, total)) < 0);
            }
        }
        lemma_cents_add_up(amounts, before, after, total, extra);
    }
}

/// Non-negative whole-cent shares of a non-negative whole-cent total (below `2^96`
/// cents) that fall short of it by fewer cents than there are shares: handing out
/// the leftover cents makes them add up to the total, one cent to each of the first
/// ones.
proof fn lemma_cents_add_up(
    amounts: Seq<Dec>,
    before: Seq<UserSplitResult>,
    after: Seq<UserSplitResult>,
    total: Dec,
    extra: Dec,
)
    requires
        amounts == result_amounts(before),
        total.wf(),
        total.units() >= 0,
        total.units() % 100000000000000000000000000 == 0,
        fits_at(total.units(), 2),
        forall|j: int|
            0 <= j < amounts.len() ==> {
                &&& 0 <= (#[trigger] amounts[j]).units()
                &&& amounts[j].units() % 100000000000000000000000000 == 0
                &&& amounts[j].scale <= 2
            },
        0 <= total.units() - units_sum(amounts) < amounts.len() * 100000000000000000000000000,
        ({
            let p = fold_sum(result_amounts(before));
            &&& extra == decimal_sub(total, p)
            &&& sub_facts(total, p)
            &&& abs_units_sum(result_amounts(before)) < mantissa_limit() * ulp(
                seq_max_scale(result_amounts(before)),
            ) ==> p.units() == units_sum(result_amounts(before)) && p.scale <= seq_max_scale(
                result_amounts(before),
            )
        }),
        after.len() == before.len(),
        forall|i: int|
            0 <= i < after.len() ==> (#[trigger] after[i]).amount@ == (if i < cents_given(
                extra,
                before.len(),
            ) {
                decimal_add(before[i].amount@, cent())
            } else {
                before[i].amount@
            }),
        forall|i: int|
            0 <= i < cents_given(extra, before.len()) ==> #[trigger] add_facts(
                before[i].amount@,
                cent(),
            ),
        ({
            let e = extra.units();
            0 <= e < before.len() * 100000000000000000000000000 && e % 100000000000000000000000000
                == 0 ==> cents_given(extra, before.len()) == e / 100000000000000000000000000
        }),
    ensures
        units_sum(result_amounts(after)) == total.units(),
        ({
            let k = cents_given(extra, before.len());
            forall|i: int|
                0 <= i < after.len() ==> (#[trigger] after[i]).amount@.units() == amounts[i].units()
                    + (if i < k {
                    100000000000000000000000000int
                } else {
                    0
                })
        }),
{
    lemma_pow10_values();
    let n = amounts.len() as int;
    let t = total.units();
    let c = 100000000000000000000000000int;
    let a = units_sum(amounts);
    crate::decimal::lemma_abs_sum_bounds(amounts);
    lemma_nonneg_abs_sum(amounts);
    assert(abs_units_sum(amounts) == a);
    assert(a % c == 0) by {
        lemma_whole_cents_sum(amounts);
    }
    lemma_max_scale_at_most(amounts, 2);
    assert(amounts.take(n) =~= amounts);
    // the running sum of the shares is exact at scale 2
    crate::decimal::lemma_pow10_monotone(26, (28 - seq_max_scale(amounts)) as nat);
    assert(ulp(seq_max_scale(amounts)) >= c);
    assert(mantissa_limit() * c <= mantissa_limit() * ulp(seq_max_scale(amounts)))
        by (nonlinear_arith)
        requires
            ulp(seq_max_scale(amounts)) >= c,
            mantissa_limit() > 0,
    ;
    assert(t < mantissa_limit() * c);
    let p = fold_sum(amounts);
    assert(p.units() == a && p.scale <= 2);
    // so is the remainder of the total
    let m = max_scale(total, p);
    assert(fits_at(t - a, m)) by {
        if total.scale >= p.scale {
            lemma_units_sign(total);
            assert(abs(t) < mantissa_limit() * ulp(m)) by (nonlinear_arith)
                requires
                    abs(t) == abs(total.mantissa as int) * ulp(m),
                    abs(total.mantissa as int) < mantissa_limit(),
                    ulp(m) >= 1,
            ;
        } else {
            crate::decimal::lemma_pow10_monotone(26, (28 - m) as nat);
            assert(mantissa_limit() * c <= mantissa_limit() * ulp(m)) by (nonlinear_arith)
                requires
                    ulp(m) >= c,
                    mantissa_limit() > 0,
            ;
        }
    }
    assert(extra.units() == t - a);
    assert((t - a) % c == 0) by {
        vstd::arithmetic::div_mod::lemma_sub_mod_noop(t, a, c);
    }
    let k = cents_given(extra, before.len());
    assert(k == (t - a) / c);
    assert(t - a == k * c && k < n) by (nonlinear_arith)
        requires
            0 <= t - a < n * c,
            (t - a) % c == 0,
            c > 0,
            k == (t - a) / c,
    ;
    // the first k shares get one cent each, exactly
    let outs = result_amounts(after);
    assert forall|i: int| 0 <= i < n implies (#[trigger] outs[i]).units() == amounts[i].units() + (
    if i < k {
        c
    } else {
        0
    }) by {
        assert(outs[i] == after[i].amount@);
        if i < k {
            assert(add_facts(before[i].amount@, cent()));
            assert(amounts[i] == before[i].amount@);
            assert(k >= 1);
            // amounts[i] <= a <= t - c
            assert(amounts[i].units() <= a) by {
                lemma_share_le_sum(amounts, i);
            }
            lemma_units_sign(cent());
            assert(cent().units() == c);
            assert(max_scale(amounts[i], cent()) == 2);
            assert(ulp(2) == c);
            assert(fits_at(amounts[i].units() + c, 2));
        }
    }
    lemma_sum_with_cents(amounts, outs, k as int, n);
    assert(outs.take(n) =~= outs);
    assert forall|i: int| 0 <= i < after.len() implies (#[trigger] after[i]).amount@.units()
        == amounts[i].units() + (if i < k {
        c
    } else {
        0
    }) by {
        assert(outs[i] == after[i].amount@);
    }
}

/// The magnitudes of non-negative decimals add up to their sum.
proof fn lemma_nonneg_abs_sum(s: Seq<Dec>)
    requires
        forall|j: int| 0 <= j < s.len() ==> 0 <= (#[trigger] s[j]).units(),
    ensures
        abs_units_sum(s) == units_sum(s),
    decreases s.len(),
{
    if s.len() > 0 {
        lemma_nonneg_abs_sum(s.drop_last());
    }
}

/// Whole numbers of cents add up to a whole number of cents.
proof fn lemma_whole_cents_sum(s: Seq<Dec>)
    requires
        forall|j: int| 0 <= j < s.len() ==> (#[trigger] s[j]).units() % 100000000000000000000000000
            == 0,
    ensures
        units_sum(s) % 100000000000000000000000000 == 0,
    decreases s.len(),
{
    if s.len() > 0 {
        lemma_whole_cents_sum(s.drop_last());
        vstd::arithmetic::div_mod::lemma_add_mod_noop(
            units_sum(s.drop_last()),
            s.last().units(),
            100000000000000000000000000,
        );
    }
}

/// A sequence of decimals with scales at most `m` has a largest scale of at most `m`.
proof fn lemma_max_scale_at_most(s: Seq<Dec>, m: nat)
    requires
        forall|j: int| 0 <= j < s.len() ==> (#[trigger] s[j]).scale <= m,
    ensures
        seq_max_scale(s) <= m,
    decreases s.len(),
{
    if s.len() > 0 {
        lemma_max_scale_at_most(s.drop_last(), m);
    }
}

proof fn lemma_split_adds_up(
    vals: Seq<Dec>,
    before: Seq<UserSplitResult>,
    after: Seq<UserSplitResult>,
    total: Dec,
    extra: Dec,
)
    requires
        vals.len() == before.len(),
        total.wf(),
        units_sum(vals) == one_units(),
        total.units() >= 0,
        total.units() % 100000000000000000000000000 == 0,
        fits_at(total.units(), 2),
        forall|i: int| 0 <= i < vals.len() ==> mul_is_exact(#[trigger] vals[i], total),
        forall|j: int| 0 <= j < vals.len() ==> in_unit_range(#[trigger] vals[j]),
        forall|j: int|
            0 <= j < vals.len() ==> (#[trigger] decimal_mul(vals[j], total)).wf() && (mul_is_exact(
                vals[j],
                total,
            ) ==> decimal_mul(vals[j], total).units() * one_units() == vals[j].units()
                * total.units()),
        forall|j: int|
            0 <= j < vals.len() ==> (#[trigger] before[j]).amount@ == share_of(vals[j], total),
        ({
            let p = fold_sum(result_amounts(before));
            &&& extra == decimal_sub(total, p)
            &&& sub_facts(total, p)
            &&& abs_units_sum(result_amounts(before)) < mantissa_limit() * ulp(
                seq_max_scale(result_amounts(before)),
            ) ==> p.units() == units_sum(result_amounts(before)) && p.scale <= seq_max_scale(
                result_amounts(before),
            )
        }),
        after.len() == before.len(),
        forall|i: int|
            0 <= i < after.len() ==> (#[trigger] after[i]).amount@ == (if i < cents_given(
                extra,
                before.len(),
            ) {
                decimal_add(before[i].amount@, cent())
            } else {
                before[i].amount@
            }),
        forall|i: int|
            0 <= i < cents_given(extra, before.len()) ==> #[trigger] add_facts(
                before[i].amount@,
                cent(),
            ),
        ({
            let e = extra.units();
            0 <= e < before.len() * 100000000000000000000000000 && e % 100000000000000000000000000
                == 0 ==> cents_given(extra, before.len()) == e / 100000000000000000000000000
        }),
    ensures
        units_sum(result_amounts(after)) == total.units(),
        forall|i: int|
            0 <= i < after.len() ==> shares_bracket(
                vals[i],
                total,
                #[trigger] after[i].amount@,
            ),
        forall|i: int, j: int|
            0 <= i < j < after.len() && vals[i].units() == vals[j].units() ==> #[trigger] after[j].amount@.units()
                <= #[trigger] after[i].amount@.units() <= after[j].amount@.units()
                + 100000000000000000000000000,
{
    lemma_pow10_values();
    let n = vals.len() as int;
    let t = total.units();
    let c = 100000000000000000000000000int;
    let big = 1000000000000000000000000000000000000000000000000000000int;
    let amounts = result_amounts(before);
    // each share is the exact product cut to whole cents
    assert forall|j: int| 0 <= j < n implies {
        &&& 0 <= (#[trigger] amounts[j]).units()
        &&& amounts[j].units() * one_units() <= vals[j].units() * t
        &&& vals[j].units() * t < amounts[j].units() * one_units() + big
        &&& amounts[j].units() % c == 0
        &&& amounts[j].scale <= 2
    } by {
        let p = decimal_mul(vals[j], total);
        assert(mul_is_exact(vals[j], total));
        assert(p.wf());
        assert(p.units() * one_units() == vals[j].units() * t);
        lemma_units_sign(vals[j]);
        assert(vals[j].units() * t >= 0) by (nonlinear_arith)
            requires
                vals[j].units() >= 0,
                t >= 0,
        ;
        assert(p.units() >= 0) by (nonlinear_arith)
            requires
                p.units() * one_units() >= 0,
                one_units() > 0,
        ;
        lemma_round_dp_to_zero(p, 2);
        assert(amounts[j] == before[j].amount@);
        assert(amounts[j] == round_dp_to_zero(p, 2));
        let a = amounts[j].units();
        assert(0 <= p.units() - a < c);
        assert(a * one_units() <= p.units() * one_units()) by (nonlinear_arith)
            requires
                a <= p.units(),
                one_units() > 0,
        ;
        assert(p.units() * one_units() < a * one_units() + big) by (nonlinear_arith)
            requires
                p.units() - a < c,
                c == 100000000000000000000000000,
                one_units() == 10000000000000000000000000000,
                big == 1000000000000000000000000000000000000000000000000000000,
        ;
    }
    lemma_exact_shares(vals, amounts, total, n);
    assert(vals.take(n) =~= vals);
    assert(amounts.take(n) =~= amounts);
    let a = units_sum(amounts);
    assert(n >= 1) by {
        if n == 0 {
            assert(vals =~= Seq::<Dec>::empty());
        }
    }
    // the shares add up to at most the total, short by less than one cent each
    assert(a * one_units() <= one_units() * t);
    assert(one_units() * t < a * one_units() + n * big);
    assert(0 <= t - a < n * c) by (nonlinear_arith)
        requires
            a * one_units() <= one_units() * t,
            one_units() * t < a * one_units() + n * big,
            one_units() == 10000000000000000000000000000,
            big == c * one_units(),
    ;
    lemma_cents_add_up(amounts, before, after, total, extra);
    let k = cents_given(extra, before.len());
    let outs = result_amounts(after);
    assert forall|i: int| 0 <= i < n implies (#[trigger] outs[i]).units() == amounts[i].units() + (
    if i < k {
        c
    } else {
        0
    }) by {
        assert(outs[i] == after[i].amount@);
    }
    assert forall|i: int| 0 <= i < n implies shares_bracket(
        vals[i],
        total,
        #[trigger] after[i].amount@,
    ) by {
        assert(outs[i] == after[i].amount@);
        assert(amounts[i] == share_of(vals[i], total));
        let ai = amounts[i].units();
        assert(ai * one_units() <= vals[i].units() * t);
        assert(vals[i].units() * t < ai * one_units() + big);
        assert(ai % c == 0);
        if i < k {
            assert((ai + c) % c == 0) by {
                vstd::arithmetic::div_mod::lemma_add_mod_noop(ai, c, c);
            }
        }
    }
    assert forall|i: int, j: int|
        0 <= i < j < n && vals[i].units() == vals[j].units() implies #[trigger] after[j].amount@.units()
            <= #[trigger] after[i].amount@.units() <= after[j].amount@.units() + c by {
        assert(outs[i] == after[i].amount@);
        assert(outs[j] == after[j].amount@);
        lemma_floor_unique(
            amounts[i].units(),
            amounts[j].units(),
            vals[i].units() * t,
            c,
        );
    }
}

/// Cutting to whole cents toward zero depends only on the value.
proof fn lemma_round_value(a: Dec, b: Dec)
    requires
        a.wf(),
        b.wf(),
        a.units() == b.units(),
    ensures
        round_dp_to_zero(a, 2).units() == round_dp_to_zero(b, 2).units(),
{
    lemma_pow10_values();
    lemma_round_dp_to_zero(a, 2);
    lemma_round_dp_to_zero(b, 2);
    let c = 100000000000000000000000000int;
    let o = one_units();
    let x = a.units();
    let ra = round_dp_to_zero(a, 2).units();
    let rb = round_dp_to_zero(b, 2).units();
    assert(ulp(2) == c);
    if x >= 0 {
        assert(ra * o <= x * o < ra * o + c * o) by (nonlinear_arith)
            requires
                0 <= ra <= x,
                x - ra < c,
                o > 0,
        ;
        assert(rb * o <= x * o < rb * o + c * o) by (nonlinear_arith)
            requires
                0 <= rb <= x,
                x - rb < c,
                o > 0,
        ;
        lemma_floor_unique(ra, rb, x * o, c);
    } else {
        assert((-ra) % c == 0 && (-rb) % c == 0) by {
            vstd::arithmetic::div_mod::lemma_fundamental_div_mod(ra, c);
            vstd::arithmetic::div_mod::lemma_fundamental_div_mod(rb, c);
            vstd::arithmetic::div_mod::lemma_mod_multiples_basic(-(ra / c), c);
            vstd::arithmetic::div_mod::lemma_mod_multiples_basic(-(rb / c), c);
            assert(-(ra / c) * c == -ra) by (nonlinear_arith)
                requires
                    ra == c * (ra / c),
            ;
            assert(-(rb / c) * c == -rb) by (nonlinear_arith)
                requires
                    rb == c * (rb / c),
            ;
        }
        assert((-ra) * o <= (-x) * o < (-ra) * o + c * o) by (nonlinear_arith)
            requires
                x <= ra <= 0,
                ra - x < c,
                o > 0,
        ;
        assert((-rb) * o <= (-x) * o < (-rb) * o + c * o) by (nonlinear_arith)
            requires
                x <= rb <= 0,
                rb - x < c,
                o > 0,
        ;
        lemma_floor_unique(-ra, -rb, (-x) * o, c);
    }
}

/// Two whole numbers of cents, each of which (times `10^28`) lies at or below `x` by
/// less than a cent times `10^28`, are equal.
proof fn lemma_floor_unique(a: int, b: int, x: int, c: int)
    requires
        c == 100000000000000000000000000,
        a % c == 0,
        b % c == 0,
        a * one_units() <= x < a * one_units() + c * one_units(),
        b * one_units() <= x < b * one_units() + c * one_units(),
    ensures
        a == b,
{
    if a != b {
        let lo = if a < b { a } else { b };
        let hi = if a < b { b } else { a };
        assert(lo + c <= hi) by {
            vstd::arithmetic::div_mod::lemma_fundamental_div_mod(lo, c);
            vstd::arithmetic::div_mod::lemma_fundamental_div_mod(hi, c);
            assert(lo / c < hi / c) by (nonlinear_arith)
                requires
                    lo == c * (lo / c),
                    hi == c * (hi / c),
                    lo < hi,
                    c > 0,
            ;
            assert(c * (lo / c) + c <= c * (hi / c)) by (nonlinear_arith)
                requires
                    lo / c < hi / c,
                    c > 0,
            ;
        }
        assert((lo + c) * one_units() <= hi * one_units()) by (nonlinear_arith)
            requires
                lo + c <= hi,
                one_units() > 0,
        ;
        assert((lo + c) * one_units() == lo * one_units() + c * one_units()) by (nonlinear_arith);
    }
}

/// One non-negative share is at most the sum of all of them.
proof fn lemma_share_le_sum(amounts: Seq<Dec>, i: int)
    requires
        0 <= i < amounts.len(),
        forall|j: int| 0 <= j < amounts.len() ==> 0 <= (#[trigger] amounts[j]).units(),
    ensures
        amounts[i].units() <= units_sum(amounts),
    decreases amounts.len(),
{
    let last = amounts.len() - 1;
    assert(units_sum(amounts) == units_sum(amounts.drop_last()) + amounts[last].units());
    lemma_nonneg_sum(amounts.drop_last());
    if i < last {
        lemma_share_le_sum(amounts.drop_last(), i);
    }
}

proof fn lemma_nonneg_sum(amounts: Seq<Dec>)
    requires
        forall|j: int| 0 <= j < amounts.len() ==> 0 <= (#[trigger] amounts[j]).units(),
    ensures
        units_sum(amounts) >= 0,
    decreases amounts.len(),
{
    if amounts.len() > 0 {
        lemma_nonneg_sum(amounts.drop_last());
    }
}

/// The error that a share may carry, in units of `10^-56`.
pub open spec fn share_slack(total: Dec) -> int {
    abs(total.units()) * 1000 + 2 * 1000000000000000000000000000000000000000000000000000000
}

/// How far a share lies from the ratio times the total.
pub open spec fn share_bounds(ratio: Dec, total: Dec, amount: Dec) -> bool {
    &&& abs(amount.units() * one_units() - ratio.units() * total.units()) <= share_slack(total)
    &&& abs(amount.units()) * one_units() <= ratio.units() * abs(total.units()) + share_slack(total)
    &&& abs(amount.units()) <= abs(total.units()) + abs(total.units()) / pow10(25) as int + 1
}

/// The bounds on one share, from the contracts of the product and the cut to cents.
proof fn lemma_share_facts(ratio: Dec, total: Dec, product: Dec, amount: Dec)
    requires
        in_unit_range(ratio),
        total.wf(),
        abs(product.units() * one_units() - ratio.units() * total.units()) * pow10(25) <= abs(
            ratio.units() * total.units(),
        ) + pow10(25) * one_units(),
        abs(amount.units()) <= abs(product.units()),
        abs(product.units() - amount.units()) < ulp(2),
    ensures
        share_bounds(ratio, total, amount),
{
    lemma_pow10_values();
    lemma_units_sign(ratio);
    let rho = ratio.units();
    let t = total.units();
    let p = product.units();
    let a = amount.units();
    let at = abs(t);
    assert(abs(rho * t) == rho * at) by (nonlinear_arith)
        requires
            rho >= 0,
            at == abs(t),
    ;
    assert(rho * at <= one_units() * at) by (nonlinear_arith)
        requires
            0 <= rho <= one_units(),
            at >= 0,
    ;
    // the product is within 1000 |t| + 10^28 of rho * t
    assert(abs(p * one_units() - rho * t) <= at * 1000 + one_units());
    assert(abs(a * one_units() - p * one_units()) < 100000000000000000000000000 * one_units())
        by (nonlinear_arith)
        requires
            abs(p - a) < 100000000000000000000000000,
            one_units() == 10000000000000000000000000000,
    ;
    assert(abs(a) * one_units() <= abs(p) * one_units()) by (nonlinear_arith)
        requires
            abs(a) <= abs(p),
            one_units() > 0,
    ;
    assert(abs(p) * one_units() == abs(p * one_units())) by (nonlinear_arith)
        requires
            one_units() > 0,
    ;
    assert(abs(a) <= at + at / pow10(25) as int + 1) by (nonlinear_arith)
        requires
            abs(a) * one_units() <= rho * at + at * 1000 + one_units(),
            rho * at <= one_units() * at,
            one_units() == 10000000000000000000000000000,
            pow10(25) == 10000000000000000000000000,
            at >= 0,
    ;
}

/// A share leaves room for one more cent below the largest decimal.
proof fn lemma_share_headroom(at: int, a: int)
    requires
        0 <= at,
        at * 10000 <= max_units() * 9999,
        a <= at + at / pow10(25) as int + 1,
        pow10(25) == 10000000000000000000000000,
    ensures
        a + 100000000000000000000000000 <= max_units(),
{
}

/// Summing the bounds of the shares.
proof fn lemma_share_sums(ratios: Seq<Dec>, amounts: Seq<Dec>, total: Dec, k: int)
    requires
        ratios.len() == amounts.len(),
        0 <= k <= ratios.len(),
        forall|j: int| 0 <= j < ratios.len() ==> in_unit_range(#[trigger] ratios[j]),
        forall|j: int|
            0 <= j < ratios.len() ==> share_bounds(ratios[j], total, #[trigger] amounts[j]),
    ensures
        abs(units_sum(amounts.take(k)) * one_units() - units_sum(ratios.take(k)) * total.units())
            <= k * share_slack(total),
        abs_units_sum(amounts.take(k)) * one_units() <= units_sum(ratios.take(k)) * abs(
            total.units(),
        ) + k * share_slack(total),
        0 <= units_sum(ratios.take(k)),
    decreases k,
{
    if k == 0 {
        assert(amounts.take(0) =~= Seq::<Dec>::empty());
        assert(ratios.take(0) =~= Seq::<Dec>::empty());
    } else {
        let j = k - 1;
        lemma_share_sums(ratios, amounts, total, j);
        assert(amounts.take(k).drop_last() =~= amounts.take(j));
        assert(ratios.take(k).drop_last() =~= ratios.take(j));
        assert(in_unit_range(ratios[j]));
        lemma_units_sign(ratios[j]);
        assert(share_bounds(ratios[j], total, amounts[j]));
        let ua = units_sum(amounts.take(j));
        let ur = units_sum(ratios.take(j));
        let aa = abs_units_sum(amounts.take(j));
        let a = amounts[j].units();
        let r = ratios[j].units();
        let t = total.units();
        let d = share_slack(total);
        assert(units_sum(amounts.take(k)) == ua + a);
        assert(units_sum(ratios.take(k)) == ur + r);
        assert(abs_units_sum(amounts.take(k)) == aa + abs(a));
        assert((ua + a) * one_units() - (ur + r) * t == (ua * one_units() - ur * t) + (a
            * one_units() - r * t)) by (nonlinear_arith);
        assert((aa + abs(a)) * one_units() == aa * one_units() + abs(a) * one_units())
            by (nonlinear_arith);
        assert((ur + r) * abs(t) == ur * abs(t) + r * abs(t)) by (nonlinear_arith);
        assert(k * d == j * d + d) by (nonlinear_arith)
            requires
                k == j + 1,
        ;
    }
}

/// The magnitudes that a split adds up and subtracts stay below the largest decimal.
proof fn lemma_split_bounds(t: int, ratio_sum: int, amount_sum: int, abs_amount_sum: int, n: int)
    requires
        abs(t) * 10000 <= max_units() * 9999,
        one_units() - 10000000000000000000000 <= ratio_sum <= one_units(),
        0 <= n <= 0x1_0000_0000_0000_0000,
        abs(amount_sum * one_units() - ratio_sum * t) <= n * (abs(t) * 1000 + 2
            * 1000000000000000000000000000000000000000000000000000000),
        abs_amount_sum * one_units() <= ratio_sum * abs(t) + n * (abs(t) * 1000 + 2
            * 1000000000000000000000000000000000000000000000000000000),
        abs_amount_sum >= 0,
    ensures
        ({
            let slack = n * (abs_amount_sum / 1000000000000000000000000 + 2);
            &&& abs_amount_sum + slack <= max_units()
            &&& abs(t - amount_sum) + slack <= max_units()
            &&& (abs(t - amount_sum) + slack) * 2 * 301 + 1000 <= max_units()
        }),
{
    let at = abs(t);
    let big = 1000000000000000000000000000000000000000000000000000000int;
    let d = at * 1000 + 2 * big;
    let nd = n * d;
    assert(nd <= 0x1_0000_0000_0000_0000 * d) by (nonlinear_arith)
        requires
            0 <= n <= 0x1_0000_0000_0000_0000,
            nd == n * d,
            d >= 0,
    ;
    assert(ratio_sum * at <= one_units() * at) by (nonlinear_arith)
        requires
            ratio_sum <= one_units(),
            at >= 0,
    ;
    assert(ratio_sum * at >= 0) by (nonlinear_arith)
        requires
            ratio_sum >= 0,
            at >= 0,
    ;
    // |t * 10^28 - ratio_sum * t| <= |t| * 10^22
    assert(abs(t * one_units() - ratio_sum * t) <= at * 10000000000000000000000)
        by (nonlinear_arith)
        requires
            one_units() - 10000000000000000000000 <= ratio_sum <= one_units(),
            at == abs(t),
            one_units() == 10000000000000000000000000000,
    ;
    let aas = abs_amount_sum;
    assert(aas <= at + nd / one_units() + 1) by (nonlinear_arith)
        requires
            aas * one_units() <= one_units() * at + nd,
            one_units() > 0,
    ;
    assert(abs(t - amount_sum) <= at / 1000000 + nd / one_units() + 1) by (nonlinear_arith)
        requires
            abs(amount_sum * one_units() - ratio_sum * t) <= nd,
            abs(t * one_units() - ratio_sum * t) <= at * 10000000000000000000000,
            one_units() == 10000000000000000000000000000,
    ;
    let slack = n * (aas / 1000000000000000000000000 + 2);
    assert(slack <= 0x1_0000_0000_0000_0000 * (aas / 1000000000000000000000000 + 2))
        by (nonlinear_arith)
        requires
            0 <= n <= 0x1_0000_0000_0000_0000,
            aas >= 0,
            slack == n * (aas / 1000000000000000000000000 + 2),
    ;
}

impl Receipt {
    /// Hands out the `extra_value` left over after a split: the even share of each of
    /// the results (cut to whole cents toward zero) is taken off it, and then the
    /// first results get one cent each, as many as there are whole cents left (and at
    /// most all of them). The even share itself is not added to any result. Nothing is
    /// handed out for an extra value below one cent, and never more cents than the
    /// extra value holds.
    #[verifier::rlimit(50)]
    pub fn distribute_extra_value(results: Vec<UserSplitResult>, extra_value: Dec) -> (r: Vec<
        UserSplitResult,
    >)
        requires
            results@.len() > 0,
            extra_value.wf(),
            abs(extra_value.units()) * 101 <= max_units(),
            forall|i: int|
                0 <= i < cents_given(extra_value, results@.len()) ==> abs(
                    (#[trigger] results@[i]).amount@.units() + 100000000000000000000000000,
                ) <= max_units(),
        ensures
            r@.len() == results@.len(),
            forall|i: int|
                0 <= i < r@.len() ==> (#[trigger] r@[i]).username == results@[i].username && r@[i].amount@
                    == (if i < cents_given(extra_value, results@.len()) {
                    decimal_add(results@[i].amount@, cent())
                } else {
                    results@[i].amount@
                }),
            forall|i: int|
                0 <= i < cents_given(extra_value, results@.len()) ==> #[trigger] add_facts(
                    results@[i].amount@,
                    cent(),
                ),
            ({
                let e = extra_value.units();
                0 <= e < results@.len() * 100000000000000000000000000 && e
                    % 100000000000000000000000000 == 0
                    ==> cents_given(extra_value, results@.len()) == e / 100000000000000000000000000
            }),
            extra_value.units() < 100000000000000000000000000 ==> cents_given(
                extra_value,
                results@.len(),
            ) == 0,
            extra_value.units() >= 0 && fits_at(extra_value.units(), 2) ==> cents_given(
                extra_value,
                results@.len(),
            ) * 100000000000000000000000000 <= extra_value.units(),
            // An extra value of k cents and less than a cent more (k up to 10^24) among n
            // results, whenever its even share is clear (always for a whole number of
            // cents): the even share of floor(k / n) cents is taken off, and the first
            // k - floor(k / n) results (all n when there are fewer) get one cent each;
            // none do when that count does not fit in a usize.
            ({
                let e = extra_value.units();
                let nn = results@.len() as int;
                let k = e / 100000000000000000000000000;
                let given = if k - k / nn > usize::MAX {
                    0
                } else if k - k / nn < nn {
                    k - k / nn
                } else {
                    nn
                };
                e >= 0 && k <= 1000000000000000000000000 && share_is_clear(
                    k,
                    e % 100000000000000000000000000,
                    nn,
                ) ==> forall|i: int|
                    0 <= i < nn ==> (#[trigger] r@[i]).amount@ == (if i < given {
                        decimal_add(results@[i].amount@, cent())
                    } else {
                        results@[i].amount@
                    })
            }),
            // Less than a cent leaves every amount as it was.
            extra_value.units() < 100000000000000000000000000 ==> forall|i: int|
                0 <= i < r@.len() ==> (#[trigger] r@[i]).amount@ == results@[i].amount@,
            // Never more cents than the extra value holds: a result whose place would
            // need more leaves its amount as it was.
            extra_value.units() >= 0 && fits_at(extra_value.units(), 2) ==> forall|i: int|
                0 <= i < r@.len() && (i + 1) * 100000000000000000000000000 > extra_value.units()
                    ==> (#[trigger] r@[i]).amount@ == results@[i].amount@,
    {
        let n = results.len();
        let ghost ext = extra_value;
        proof {
            lemma_pow10_values();
            lemma_units_sign(extra_value);
        }
        let count_dec = Dec::from_usize(n);
        proof {
            lemma_units_sign(count_dec);
            assert(count_dec.units() == n * one_units());
            assert(count_dec.units() >= one_units());
            assert(abs(extra_value.units()) * one_units() <= max_units() * abs(count_dec.units()))
                by (nonlinear_arith)
                requires
                    abs(extra_value.units()) <= max_units(),
                    count_dec.units() >= one_units(),
                    one_units() > 0,
            ;
        }
        let quotient = dec_div(extra_value, count_dec);
        proof {
            lemma_div_bound(extra_value, count_dec, count_dec.units());
            lemma_round_dp_to_zero(quotient, 2);
            if n == 1 {
                lemma_divide_by_one(extra_value, count_dec, quotient);
            }
        }
        let each_add = dec_round_dp_to_zero(quotient, 2);
        let cent_dec = Dec { mantissa: 1, scale: 2, negative: false };
        let left = dec_sub(extra_value, each_add);
        proof {
            lemma_units_sign(cent_dec);
            assert(cent_dec.units() == 100000000000000000000000000);
            lemma_leftover_bound(
                extra_value.units(),
                n as int,
                quotient.units(),
                each_add.units(),
                left.units(),
            );
            assert(abs(left.units()) * one_units() <= max_units() * abs(cent_dec.units()));
        }
        let cents = dec_div(left, cent_dec);
        proof {
            crate::decimal::lemma_trunc(cents);
            let e = extra_value.units();
            if 0 <= e < n * 100000000000000000000000000 && e % 100000000000000000000000000 == 0 {
                lemma_whole_cents_left(extra_value, n as int, quotient, each_add, left, cents);
            }
            lemma_cents_count(left, cents);
            lemma_leftover_facts(extra_value, n as int, quotient, each_add, left);
            if e >= 0 && e / 100000000000000000000000000 <= 1000000000000000000000000
                && share_is_clear(
                e / 100000000000000000000000000,
                e % 100000000000000000000000000,
                n as int,
            ) {
                lemma_whole_cents_count(extra_value, n as int, quotient, each_add, left, cents);
            }
        }
        let dist_num = match dec_to_usize(dec_trunc(cents)) {
            Some(k) => k,
            None => 0,
        };
        proof {
            assert(cent_dec == cent());
            assert(count_dec == count(n as nat));
        }
        Receipt::add_cents(results, dist_num)
    }

    /// Adds one cent to each of the first `count` results (to all of them when there
    /// are fewer), keeping their order and names.
    pub fn add_cents(results: Vec<UserSplitResult>, count: usize) -> (r: Vec<UserSplitResult>)
        requires
            forall|i: int|
                0 <= i < results@.len() && i < count ==> abs(
                    (#[trigger] results@[i]).amount@.units() + 100000000000000000000000000,
                ) <= max_units(),
        ensures
            r@.len() == results@.len(),
            forall|i: int|
                0 <= i < r@.len() ==> (#[trigger] r@[i]).username == results@[i].username && r@[i].amount@
                    == (if i < count {
                    decimal_add(results@[i].amount@, cent())
                } else {
                    results@[i].amount@
                }),
            forall|i: int| 0 <= i < count && i < results@.len() ==> #[trigger] add_facts(
                results@[i].amount@,
                cent(),
            ),
    {
        let n = results.len();
        let stop = if n < count {
            n
        } else {
            count
        };
        let cent_dec = Dec { mantissa: 1, scale: 2, negative: false };
        let mut out: Vec<UserSplitResult> = Vec::new();
        for i in 0..n
            invariant
                n == results@.len(),
                stop <= n,
                stop <= count,
                stop == n || stop == count,
                stop < n ==> stop == count,
                cent_dec == cent(),
                out@.len() == i,
                forall|j: int|
                    0 <= j < results@.len() && j < count ==> abs(
                        (#[trigger] results@[j]).amount@.units() + 100000000000000000000000000,
                    ) <= max_units(),
                forall|j: int|
                    0 <= j < i ==> (#[trigger] out@[j]).username == results@[j].username
                        && out@[j].amount@ == (if j < stop {
                        decimal_add(results@[j].amount@, cent())
                    } else {
                        results@[j].amount@
                    }),
                forall|j: int| 0 <= j < i && j < stop ==> #[trigger] add_facts(
                    results@[j].amount@,
                    cent(),
                ),
        {
            let amount = results[i].amount;
            let new_amount = if i < stop {
                proof {
                    lemma_cent_units();
                    assert(abs(results@[i as int].amount@.units() + 100000000000000000000000000)
                        <= max_units());
                }
                amount.add(DollarValue::new(cent_dec))
            } else {
                amount
            };
            out.push(UserSplitResult { username: results[i].username.clone(), amount: new_amount });
        }
        out
    }

    /// Splits the total between `splits`: each person gets their ratio of the total,
    /// cut to whole cents toward zero, and the first ones get one more cent each
    /// while whole cents are left over. `RatioSumNotOne` when the ratios do not add up
    /// to one (within `0.000001`, and at most one). When they do, no decimal
    /// operation of the split may overflow (`split_fits`); a total below `0.9999` of
    /// the largest decimal guarantees that.
    pub fn split(&self, splits: Vec<UserSplit>) -> (r: Result<Vec<UserSplitResult>, Error>)
        requires
            ratios_add_up(ratio_values(split_ratios(splits@))) ==> split_fits(
                ratio_values(split_ratios(splits@)),
                self.total@,
            ) || total_has_headroom(self.total@),
        ensures
            ({
                let ratios = ratio_values(split_ratios(splits@));
                &&& r is Ok <==> ratios_add_up(ratios)
                &&& r matches Err(e) ==> e matches Error::RatioSumNotOne(v) && v@ == split_ratios(
                    splits@,
                )
                &&& r matches Ok(out) ==> {
                    &&& out@.len() == splits@.len()
                    &&& forall|i: int|
                        0 <= i < out@.len() ==> (#[trigger] out@[i]).username == splits@[i].username
                            && out@[i].amount@ == split_amount(ratios, self.total@, i)
                }
            }),
            // Every amount is a whole number of cents; it is its share or one cent more
            // (when that is exact, below 2^96 cents); and of two people with the same
            // ratio the earlier one gets at most one cent more and never less.
            ({
                let ratios = ratio_values(split_ratios(splits@));
                let sh = shares(ratios, self.total@);
                r matches Ok(out) ==> {
                    &&& forall|i: int|
                        0 <= i < out@.len() ==> (#[trigger] out@[i]).amount@.units()
                            % 100000000000000000000000000 == 0
                    &&& forall|i: int|
                        0 <= i < out@.len() && fits_at(sh[i].units() + 100000000000000000000000000, 2)
                            ==> sh[i].units() <= (#[trigger] out@[i]).amount@.units() <= sh[i].units()
                            + 100000000000000000000000000
                    &&& forall|i: int, j: int|
                        0 <= i < j < out@.len() && ratios[i].units() == ratios[j].units() && fits_at(
                            sh[i].units() + 100000000000000000000000000,
                            2,
                        ) ==> #[trigger] out@[j].amount@.units() <= #[trigger] out@[i].amount@.units()
                            <= out@[j].amount@.units() + 100000000000000000000000000
                }
            }),
            // When the total is a non-negative whole number of cents (below 2^96 cents) and
            // the shares fall short of it by fewer cents than there are people, the leftover
            // cents are all handed out and the amounts add up to the total.
            ({
                let ratios = ratio_values(split_ratios(splits@));
                let t = self.total@.units();
                r is Ok && t >= 0 && t % 100000000000000000000000000 == 0 && fits_at(t, 2) && 0
                    <= t - units_sum(shares(ratios, self.total@)) < ratios.len()
                    * 100000000000000000000000000 ==> (r matches Ok(out) && units_sum(
                    result_amounts(out@),
                ) == t)
            }),
            // When the ratios add up to exactly one, the total is a non-negative whole
            // number of cents (below 2^96 cents) and every product is exact, the amounts
            // add up to the total; each is its share or one cent more, a whole number of
            // cents; and of two people with equal ratios the earlier one gets at most
            // one cent more and never less.
            ({
                let ratios = ratio_values(split_ratios(splits@));
                let t = self.total@;
                units_sum(ratios) == one_units() && t.units() >= 0 && t.units()
                    % 100000000000000000000000000 == 0 && fits_at(t.units(), 2) && (forall|i: int|
                    0 <= i < ratios.len() ==> mul_is_exact(#[trigger] ratios[i], t))
                    ==> (r matches Ok(out) && units_sum(result_amounts(out@)) == t.units()
                    && (forall|i: int|
                    0 <= i < out@.len() ==> shares_bracket(ratios[i], t, #[trigger] out@[i].amount@))
                    && forall|i: int, j: int|
                    0 <= i < j < out@.len() && ratios[i].units() == ratios[j].units()
                        ==> #[trigger] out@[j].amount@.units() <= #[trigger] out@[i].amount@.units()
                        <= out@[j].amount@.units() + 100000000000000000000000000)
            }),
    {
        let n = splits.len();
        let mut ratios: Vec<Ratio> = Vec::new();
        for i in 0..n
            invariant
                n == splits@.len(),
                ratios@ == split_ratios(splits@.take(i as int)),
        {
            ratios.push(splits[i].ratio);
            proof {
                assert(split_ratios(splits@.take(i + 1)) =~= split_ratios(splits@.take(i as int)).push(
                    splits@[i as int].ratio,
                ));
            }
        }
        proof {
            assert(splits@.take(n as int) =~= splits@);
        }
        match Receipt::validate_full_ratio(ratios) {
            Ok(()) => {},
            Err(e) => {
                return Err(e);
            },
        }
        let ghost vals = ratio_values(split_ratios(splits@));
        let total = self.total.inner();
        let mut results: Vec<UserSplitResult> = Vec::new();
        for i in 0..n
            invariant
                n == splits@.len(),
                vals == ratio_values(split_ratios(splits@)),
                total == self.total@,
                total.wf(),
                results@.len() == i,
                forall|j: int|
                    0 <= j < i ==> (#[trigger] results@[j]).username == splits@[j].username
                        && results@[j].amount@ == share_of(vals[j], total),
                forall|j: int| 0 <= j < i ==> in_unit_range(#[trigger] vals[j]),
                forall|j: int| 0 <= j < i ==> share_bounds(vals[j], total, #[trigger] results@[j].amount@),
                forall|j: int|
                    0 <= j < i ==> (#[trigger] decimal_mul(vals[j], total)).wf() && (mul_is_exact(
                        vals[j],
                        total,
                    ) ==> decimal_mul(vals[j], total).units() * one_units() == vals[j].units()
                        * total.units()) && abs(
                        decimal_mul(vals[j], total).units() * one_units() - vals[j].units()
                            * total.units(),
                    ) * pow10(25) <= abs(vals[j].units() * total.units()) + pow10(25)
                        * one_units(),
                forall|j1: int, j2: int|
                    0 <= j1 < i && 0 <= j2 < i && vals[j1].units() == vals[j2].units()
                        ==> #[trigger] decimal_mul(vals[j1], total).units() == #[trigger] decimal_mul(
                        vals[j2],
                        total,
                    ).units(),
        {
            let ratio = splits[i].ratio.inner();
            proof {
                let rho = ratio.units();
                let t = total.units();
                crate::decimal::lemma_units_bound(total);
                assert(abs(rho * t) <= one_units() * abs(t)) by (nonlinear_arith)
                    requires
                        0 <= rho <= one_units(),
                ;
                assert(one_units() * abs(t) <= max_units() * one_units()) by (nonlinear_arith)
                    requires
                        abs(t) <= max_units(),
                        one_units() > 0,
                ;
            }
            let product = dec_mul(ratio, total);
            let amount = dec_round_dp_to_zero(product, 2);
            proof {
                lemma_round_dp_to_zero(product, 2);
                lemma_share_facts(ratio, total, product, amount);
                assert(vals[i as int] == ratio);
                assert forall|j1: int, j2: int|
                    0 <= j1 < i + 1 && 0 <= j2 < i + 1 && vals[j1].units() == vals[j2].units()
                        implies #[trigger] decimal_mul(vals[j1], total).units()
                        == #[trigger] decimal_mul(vals[j2], total).units() by {
                    if j1 == i || j2 == i {
                        assert(in_unit_range(vals[j1]) && in_unit_range(vals[j2]));
                        assert(decimal_mul(vals[j1], total).units() == product.units());
                        assert(decimal_mul(vals[j2], total).units() == product.units());
                    }
                }
            }
            results.push(
                UserSplitResult {
                    username: splits[i].username.clone(),
                    amount: DollarValue::new(amount),
                },
            );
        }
        let ghost amounts = result_amounts(results@);
        let ghost fits = split_fits(vals, total);
        proof {
            assert(amounts =~= shares(vals, total));
            assert(n >= 1) by {
                if n == 0 {
                    assert(vals =~= Seq::<Dec>::empty());
                }
            }
            if !fits {
                // the values alone leave room for every step
                assert(total_has_headroom(total));
                assert forall|j: int| 0 <= j < vals.len() implies share_bounds(
                    vals[j],
                    total,
                    #[trigger] amounts[j],
                ) by {
                    assert(amounts[j] == results@[j].amount@);
                }
                lemma_share_sums(vals, amounts, total, n as int);
                assert(vals.take(n as int) =~= vals);
                assert(amounts.take(n as int) =~= amounts);
                crate::decimal::lemma_abs_sum_bounds(amounts);
                lemma_split_bounds(
                    total.units(),
                    units_sum(vals),
                    units_sum(amounts),
                    abs_units_sum(amounts),
                    n as int,
                );
                lemma_pow10_values();
            }
        }
        let extra = self.get_extra_value(&results);
        let extra_value = extra.inner();
        proof {
            if fits {
                assert forall|i: int| 0 <= i < cents_given(extra_value, results@.len()) implies abs(
                    (#[trigger] results@[i]).amount@.units() + 100000000000000000000000000,
                ) <= max_units() by {
                    assert(amounts[i] == results@[i].amount@);
                    assert(shares(vals, total)[i] == amounts[i]);
                }
            } else {
                let p = fold_sum(amounts);
                crate::decimal::lemma_close_bound(extra_value.units(), total.units() - p.units());
                assert forall|j: int| 0 <= j < cents_given(extra_value, results@.len()) implies abs(
                    (#[trigger] results@[j]).amount@.units() + 100000000000000000000000000,
                ) <= max_units() by {
                    lemma_pow10_values();
                    assert(amounts[j] == results@[j].amount@);
                    assert(share_bounds(vals[j], total, amounts[j]));
                    lemma_share_headroom(abs(total.units()), abs(amounts[j].units()));
                }
            }
        }
        let ghost before = results@;
        let results = Receipt::distribute_extra_value(results, extra_value);
        proof {
            if units_sum(vals) == one_units() && total.units() >= 0 && total.units()
                % 100000000000000000000000000 == 0 && fits_at(total.units(), 2) && (forall|i: int|
                0 <= i < vals.len() ==> mul_is_exact(#[trigger] vals[i], total)) {
                lemma_split_adds_up(vals, before, results@, total, extra_value);
            }
            lemma_split_general(vals, before, results@, total, extra_value);
        }
        Ok(results)
    }

    /// Checks that `ratios` add up to one: their running sum must be a ratio, and
    /// within `0.000001` of one; `RatioSumNotOne` otherwise. The running sum of
    /// ratios that ends at most one is exact, so this holds exactly when the exact sum
    /// lies between `0.999999` and `1`.
    pub fn validate_full_ratio(ratios: Vec<Ratio>) -> (r: Result<(), Error>)
        ensures
            r is Ok <==> one_units() - 10000000000000000000000 <= units_sum(
                ratio_values(ratios@),
            ) <= one_units(),
            r is Err ==> r == Err::<(), Error>(Error::RatioSumNotOne(ratios)),
    {
        let total_ratio = match Ratio::sum(&ratios) {
            Ok(t) => t,
            Err(_) => {
                return Err(Error::RatioSumNotOne(ratios));
            },
        };
        let one = match Ratio::try_new(Dec::one()) {
            Ok(o) => o,
            Err(e) => {
                return Err(e);
            },
        };
        let epsilon = Dec::new(1, 6);
        let t = total_ratio.inner();
        let o = one.inner();
        proof {
            lemma_pow10_values();
            lemma_units_sign(t);
            lemma_units_sign(o);
            assert(max_scale(t, o) <= 28);
            crate::decimal::lemma_pow10_monotone(0, (28 - max_scale(t, o)) as nat);
            assert(mantissa_limit() <= mantissa_limit() * ulp(max_scale(t, o)))
                by (nonlinear_arith)
                requires
                    ulp(max_scale(t, o)) >= 1,
                    mantissa_limit() > 0,
            ;
            assert(fits_at(t.units() - o.units(), max_scale(t, o)));
        }
        let diff = dec_sub(t, o).abs();
        proof {
            lemma_units_sign(epsilon);
            assert(epsilon.units() == 10000000000000000000000);
        }
        if dec_gt(diff, epsilon) {
            return Err(Error::RatioSumNotOne(ratios));
        }
        Ok(())
    }
}

} // verus!
