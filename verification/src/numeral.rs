//! The mathematics of positional notation: what a digit sequence is worth,
//! which digit sequence writes a value, and why the two undo each other.
//!
//! A digit sequence stores the least significant digit first.

use vstd::prelude::*;
use vstd::arithmetic::power::{pow, lemma_pow0, lemma_pow_positive};
use vstd::arithmetic::div_mod::{lemma_fundamental_div_mod, lemma_fundamental_div_mod_converse};

verus! {

/// A supported base lies between 2 and 36.
pub open spec fn valid_base(base: int) -> bool {
    2 <= base <= 36
}

/// Every digit of a digit sequence is non-negative and less than the base.
pub open spec fn valid_digits(digits: Seq<i32>, base: int) -> bool {
    forall|i: int| 0 <= i < digits.len() ==> 0 <= #[trigger] digits[i] < base
}

/// A canonical digit sequence holds at least one digit and, unless it is a
/// single digit, ends in a non-zero digit: it writes its value without
/// leading zeros.
pub open spec fn canonical_digits(digits: Seq<i32>) -> bool {
    digits.len() >= 1 && (digits.len() == 1 || digits.last() != 0)
}

/// The value of a digit sequence: the sum of `digits[i] * base^i`.
pub open spec fn digits_value(digits: Seq<i32>, base: int) -> int
    decreases digits.len(),
{
    if digits.len() == 0 {
        0
    } else {
        digits_value(digits.drop_last(), base) + digits.last() * pow(
            base,
            (digits.len() - 1) as nat,
        )
    }
}

/// The canonical digit sequence that writes `value` in base `base`, for a
/// non-negative value: zero is the single digit 0.
pub open spec fn value_digits(value: int, base: int) -> Seq<i32>
    decreases value,
    via value_digits_decreases
{
    if base < 2 || value < base {
        seq![value as i32]
    } else {
        seq![(value % base) as i32] + value_digits(value / base, base)
    }
}

#[via_fn]
proof fn value_digits_decreases(value: int, base: int) {
    if !(base < 2 || value < base) {
        assert(0 <= value / base < value) by (nonlinear_arith)
            requires
                2 <= base <= value,
        ;
    }
}

/// The digit sequence without its leading zeros, which are the zeros at its
/// end; the empty sequence and a sequence of zeros become the single digit 0.
pub open spec fn trim_digits(digits: Seq<i32>) -> Seq<i32>
    decreases digits.len(),
{
    if digits.len() == 0 {
        seq![0i32]
    } else if digits.len() > 1 && digits.last() == 0 {
        trim_digits(digits.drop_last())
    } else {
        digits
    }
}

/// One more factor: `base^(e + 1)` is `base * base^e`.
pub proof fn lemma_pow_step(base: int, e: nat)
    ensures
        pow(base, e + 1) == base * pow(base, e),
{
    reveal(pow);
}

/// The value of the first `k + 1` digits is the value of the first `k`
/// digits plus the digit at place `k` times `base^k`.
pub proof fn lemma_value_take_step(digits: Seq<i32>, base: int, k: int)
    requires
        0 <= k < digits.len(),
    ensures
        digits_value(digits.take(k + 1), base) == digits_value(digits.take(k), base) + digits[k]
            * pow(base, k as nat),
{
    assert(digits.take(k + 1).drop_last() =~= digits.take(k));
}

/// Horner's rule: the value is the first digit plus the base times the value
/// of the remaining digits.
pub proof fn lemma_value_horner(digits: Seq<i32>, base: int)
    requires
        digits.len() > 0,
    ensures
        digits_value(digits, base) == digits[0] + base * digits_value(digits.skip(1), base),
    decreases digits.len(),
{
    let rest = digits.skip(1);
    if digits.len() == 1 {
        assert(digits_value(digits.drop_last(), base) == 0);
        assert(digits_value(rest, base) == 0);
        lemma_pow0(base);
    } else {
        let init = digits.drop_last();
        lemma_value_horner(init, base);
        assert(init.skip(1) =~= rest.drop_last());
        let inner = digits_value(rest.drop_last(), base);
        let last = digits.last() as int;
        let weight = pow(base, (digits.len() - 2) as nat);
        lemma_pow_step(base, (digits.len() - 2) as nat);
        assert(digits_value(rest, base) == inner + last * weight);
        assert(base * (inner + last * weight) == base * inner + last * (base * weight))
            by (nonlinear_arith);
    }
}

/// A valid digit sequence of length `n` has a value from 0 up to, but not
/// including, `base^n`.
pub proof fn lemma_value_bounds(digits: Seq<i32>, base: int)
    requires
        base >= 1,
        valid_digits(digits, base),
    ensures
        0 <= digits_value(digits, base) < pow(base, digits.len()),
    decreases digits.len(),
{
    if digits.len() == 0 {
        lemma_pow0(base);
    } else {
        let init = digits.drop_last();
        lemma_value_bounds(init, base);
        let weight = pow(base, init.len());
        let last = digits.last() as int;
        lemma_pow_step(base, init.len());
        assert(0 <= last * weight && last * weight + weight <= base * weight)
            by (nonlinear_arith)
            requires
                0 <= last < base,
                weight > 0,
        ;
    }
}

/// The value of a prefix of a valid digit sequence does not exceed the value
/// of the whole sequence.
pub proof fn lemma_value_prefix(digits: Seq<i32>, base: int, k: int)
    requires
        base >= 1,
        valid_digits(digits, base),
        0 <= k <= digits.len(),
    ensures
        digits_value(digits.take(k), base) <= digits_value(digits, base),
    decreases digits.len(),
{
    if k == digits.len() {
        assert(digits.take(k) =~= digits);
    } else {
        let init = digits.drop_last();
        lemma_value_prefix(init, base, k);
        assert(init.take(k) =~= digits.take(k));
        lemma_pow_positive(base, init.len());
        let weight = pow(base, init.len());
        let last = digits.last() as int;
        assert(0 <= last * weight) by (nonlinear_arith)
            requires
                0 <= last,
                weight > 0,
        ;
    }
}

/// A valid digit sequence with a non-zero digit at place `k` is worth at
/// least `base^k`.
pub proof fn lemma_value_at_least_weight(digits: Seq<i32>, base: int, k: int)
    requires
        base >= 1,
        valid_digits(digits, base),
        0 <= k < digits.len(),
        digits[k] != 0,
    ensures
        digits_value(digits, base) >= pow(base, k as nat),
{
    lemma_value_prefix(digits, base, k + 1);
    lemma_value_take_step(digits, base, k);
    assert(valid_digits(digits.take(k), base));
    lemma_value_bounds(digits.take(k), base);
    let weight = pow(base, k as nat);
    let digit = digits[k] as int;
    lemma_pow_positive(base, k as nat);
    assert(digit * weight >= weight) by (nonlinear_arith)
        requires
            digit >= 1,
            weight > 0,
    ;
}

/// The digit sequence that writes a non-negative value is valid and
/// canonical, and its value is the value written.
pub proof fn lemma_value_digits(value: int, base: int)
    requires
        valid_base(base),
        value >= 0,
    ensures
        valid_digits(value_digits(value, base), base),
        canonical_digits(value_digits(value, base)),
        digits_value(value_digits(value, base), base) == value,
    decreases value,
{
    let digits = value_digits(value, base);
    if value < base {
        assert(digits =~= seq![value as i32]);
        lemma_value_horner(digits, base);
        assert(digits.skip(1) =~= Seq::<i32>::empty());
    } else {
        let quotient = value / base;
        let rest = value_digits(quotient, base);
        assert(0 < quotient < value) by (nonlinear_arith)
            requires
                2 <= base <= value,
                quotient == value / base,
        ;
        lemma_value_digits(quotient, base);
        lemma_fundamental_div_mod(value, base);
        assert(0 <= value % base < base) by (nonlinear_arith)
            requires
                base >= 2,
        ;
        assert(digits =~= seq![(value % base) as i32] + rest);
        assert(digits.skip(1) =~= rest);
        lemma_value_horner(digits, base);
        assert(digits.last() == rest.last());
        if rest.len() == 1 {
            lemma_value_horner(rest, base);
            assert(rest.skip(1) =~= Seq::<i32>::empty());
            assert(rest[0] == quotient);
        }
        assert forall|i: int| 0 <= i < digits.len() implies 0 <= #[trigger] digits[i] < base by {
            if i > 0 {
                assert(digits[i] == rest[i - 1]);
            }
        }
    }
}

/// Writing the value of a valid canonical digit sequence gives that sequence
/// back: a value has exactly one canonical digit sequence.
pub proof fn lemma_digits_round_trip(digits: Seq<i32>, base: int)
    requires
        valid_base(base),
        valid_digits(digits, base),
        canonical_digits(digits),
    ensures
        value_digits(digits_value(digits, base), base) == digits,
    decreases digits.len(),
{
    let value = digits_value(digits, base);
    let rest = digits.skip(1);
    lemma_value_horner(digits, base);
    if digits.len() == 1 {
        assert(rest =~= Seq::<i32>::empty());
        assert(value == digits[0]);
        assert(value_digits(value, base) =~= digits);
    } else {
        assert(valid_digits(rest, base)) by {
            assert forall|i: int| 0 <= i < rest.len() implies 0 <= #[trigger] rest[i] < base by {
                assert(rest[i] == digits[i + 1]);
            }
        }
        assert(rest.last() == digits.last());
        assert(canonical_digits(rest));
        lemma_value_at_least_weight(rest, base, rest.len() - 1);
        lemma_pow_positive(base, (rest.len() - 1) as nat);
        let upper = digits_value(rest, base);
        lemma_digits_round_trip(rest, base);
        let low = digits[0] as int;
        assert(value >= base && value / base == upper && value % base == low) by {
            assert(value == base * upper + low);
            assert(base * upper >= base) by (nonlinear_arith)
                requires
                    upper >= 1,
                    base >= 2,
            ;
            lemma_fundamental_div_mod_converse(value, base, upper, low);
        }
        assert(value_digits(value, base) =~= seq![low as i32] + rest);
        assert(seq![low as i32] + rest =~= digits);
    }
}

/// Removing leading zeros keeps the value and the validity of a digit
/// sequence and makes it canonical.
pub proof fn lemma_trim_digits(digits: Seq<i32>, base: int)
    requires
        valid_digits(digits, base),
        base >= 1,
    ensures
        valid_digits(trim_digits(digits), base),
        canonical_digits(trim_digits(digits)),
        digits_value(trim_digits(digits), base) == digits_value(digits, base),
        canonical_digits(digits) ==> trim_digits(digits) == digits,
    decreases digits.len(),
{
    if digits.len() == 0 {
        let zero = seq![0i32];
        assert(zero.drop_last() =~= Seq::<i32>::empty());
        assert(digits_value(zero.drop_last(), base) == 0);
        assert(digits_value(zero, base) == 0 + 0 * pow(base, 0));
    } else if digits.len() > 1 && digits.last() == 0 {
        lemma_trim_digits(digits.drop_last(), base);
    } else {
    }
}

} // verus!
