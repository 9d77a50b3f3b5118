//! Evaluation of digit sequences and generation of digit sequences, on
//! machine integers.

use vstd::prelude::*;
use vstd::arithmetic::power::{pow, lemma_pow0, lemma_pow_positive};
use crate::base::{base_of_token, parse_base_input};
use crate::error::ConvertError;
use crate::numeral::{
    canonical_digits, digits_value, lemma_pow_step, lemma_value_at_least_weight,
    lemma_value_bounds, lemma_value_digits, lemma_value_prefix, lemma_value_take_step, valid_base,
    valid_digits, value_digits,
};
use crate::symbols::{
    first_invalid_symbol, literal_value, str_to_digits, to_str, valid_literal, value_literal,
};

verus! {

/// Raises `base` to the power `exp` with `num::pow`.
///
/// The contract is not proved; it is read off the source of `num::pow`, which
/// returns 1 for the exponent 0 and otherwise multiplies by repeated
/// squaring. For a non-negative base every product formed on the way is a
/// power of the base that does not exceed the result, so no multiplication
/// overflows when the result fits the machine integer.
#[verifier::external_body]
pub(crate) fn power(base: i32, exp: usize) -> (r: i32)
    requires
        base >= 0,
        pow(base as int, exp as nat) <= i32::MAX,
    ensures
        r == pow(base as int, exp as nat),
{
    num::pow(base, exp)
}

/// Evaluates the digit sequence `input` in base `base`: the sum of
/// `input[i] * base^i`. A value beyond the machine integer is rejected.
pub fn to_dec(input: &Vec<i32>, base: i32) -> (r: Result<i32, ConvertError>)
    requires
        valid_base(base as int),
        valid_digits(input@, base as int),
    ensures
        match r {
            Ok(value) => value == digits_value(input@, base as int),
            Err(e) => e == ConvertError::Overflow && digits_value(input@, base as int) > i32::MAX,
        },
{
    let mut output: i32 = 0;
    let mut weight_fits = true;
    let mut i: usize = 0;
    proof {
        lemma_pow0(base as int);
        assert(input@.take(0) =~= Seq::<i32>::empty());
    }
    while i < input.len()
        invariant
            0 <= i <= input@.len(),
            valid_base(base as int),
            valid_digits(input@, base as int),
            output == digits_value(input@.take(i as int), base as int),
            weight_fits <==> pow(base as int, i as nat) <= i32::MAX,
        decreases input@.len() - i,
    {
        let digit = input[i];
        proof {
            lemma_value_take_step(input@, base as int, i as int);
            lemma_value_prefix(input@, base as int, i as int + 1);
            lemma_pow_positive(base as int, i as nat);
            lemma_pow_step(base as int, i as nat);
            assert(valid_digits(input@.take(i as int), base as int));
            lemma_value_bounds(input@.take(i as int), base as int);
        }
        if weight_fits {
            let weight = power(base, i);
            let room = (i32::MAX - output) / weight;
            assert(digit > room <==> output + digit * weight > i32::MAX) by (nonlinear_arith)
                requires
                    weight > 0,
                    0 <= output <= i32::MAX,
                    room == (i32::MAX - output) / (weight as int),
                    digit >= 0,
            ;
            if digit > room {
                return Err(ConvertError::Overflow);
            }
            assert(0 <= digit * weight) by (nonlinear_arith)
                requires
                    digit >= 0,
                    weight > 0,
            ;
            output = output + digit * weight;
            let limit = i32::MAX / base;
            assert(weight <= limit <==> base * weight <= i32::MAX) by (nonlinear_arith)
                requires
                    base >= 2,
                    limit == (i32::MAX as int) / (base as int),
            ;
            weight_fits = weight <= limit;
        } else if digit != 0 {
            proof {
                lemma_value_at_least_weight(input@, base as int, i as int);
            }
            return Err(ConvertError::Overflow);
        } else {
            assert(base * pow(base as int, i as nat) > i32::MAX) by (nonlinear_arith)
                requires
                    base >= 2,
                    pow(base as int, i as nat) > i32::MAX,
            ;
        }
        i += 1;
    }
    assert(input@.take(i as int) =~= input@);
    Ok(output)
}

/// Writes the non-negative `input` in base `base` by repeated division: the
/// canonical digit sequence, least significant digit first. Zero is the
/// single digit 0.
pub fn to_other(input: i32, base: i32) -> (output: Vec<i32>)
    requires
        valid_base(base as int),
        input >= 0,
    ensures
        output@ == value_digits(input as int, base as int),
        valid_digits(output@, base as int),
        canonical_digits(output@),
        digits_value(output@, base as int) == input,
{
    proof {
        lemma_value_digits(input as int, base as int);
    }
    let mut output: Vec<i32> = Vec::new();
    if input == 0 {
        output.push(0);
        assert(output@ =~= value_digits(0, base as int));
        return output;
    }
    let mut i: i32 = input;
    while i > 0
        invariant
            valid_base(base as int),
            0 <= i <= input,
            i > 0 ==> output@ + value_digits(i as int, base as int) == value_digits(
                input as int,
                base as int,
            ),
            i == 0 ==> output@ == value_digits(input as int, base as int),
        decreases i,
    {
        let rest = i % base;
        let quotient = i / base;
        proof {
            let tail = value_digits(i as int, base as int);
            if i < base {
                assert(quotient == 0 && rest == i) by (nonlinear_arith)
                    requires
                        0 < i < base,
                        quotient == i as int / base as int,
                        rest == i as int % base as int,
                ;
                assert(output@.push(rest) =~= output@ + tail);
            } else {
                assert(0 < quotient < i) by (nonlinear_arith)
                    requires
                        2 <= base <= i,
                        quotient == i as int / base as int,
                ;
                assert(output@.push(rest) + value_digits(quotient as int, base as int) =~= output@
                    + tail);
            }
        }
        i = quotient;
        output.push(rest);
    }
    output
}

/// The outcome of a conversion: the bases, the value of the literal and the
/// literal that writes the value in the output base.
#[derive(Clone, Debug, PartialEq, Eq)]
pub struct Conversion {
    /// The base of the input literal.
    pub in_base: i32,
    /// The base of the output literal.
    pub out_base: i32,
    /// The value of the input literal.
    pub decimal: i32,
    /// The value written in the output base, without leading zeros.
    pub output: String,
}

/// Whether the literal `input` can be converted from base `in_base`: every
/// symbol is a digit of the base, and the value fits the machine integer.
pub open spec fn convertible(input: Seq<char>, in_base: int) -> bool {
    valid_literal(input, in_base) && literal_value(input, in_base) <= i32::MAX
}

/// Whether `e` is the error that the literal `input` is rejected with in
/// base `in_base`. A literal with a symbol that is not a digit of the base is
/// rejected with the position of the first such symbol from the left; a
/// valid literal whose value is beyond the machine integer is rejected as an
/// overflow. No literal is rejected with any other error, and a convertible
/// literal is not rejected.
pub open spec fn rejection_of(input: Seq<char>, in_base: int, e: ConvertError) -> bool {
    match e {
        ConvertError::InvalidDigit { position } => first_invalid_symbol(
            input,
            in_base,
            position as int,
        ),
        ConvertError::Overflow => valid_literal(input, in_base) && literal_value(input, in_base)
            > i32::MAX,
        _ => false,
    }
}

/// Whether `r` is the outcome that converting the literal `input` from base
/// `in_base` to base `out_base` must have: the conversion of a convertible
/// literal, and the rejection of any other.
pub open spec fn conversion_of(
    input: Seq<char>,
    in_base: int,
    out_base: int,
    r: Result<Conversion, ConvertError>,
) -> bool {
    match r {
        Ok(conversion) => {
            &&& convertible(input, in_base)
            &&& conversion.in_base == in_base
            &&& conversion.out_base == out_base
            &&& conversion.decimal == literal_value(input, in_base)
            &&& conversion.output@ == value_literal(literal_value(input, in_base), out_base)
        },
        Err(e) => rejection_of(input, in_base, e),
    }
}

/// Converts the literal `input` from base `in_base` to base `out_base`.
pub fn convert_number(input: &str, in_base: i32, out_base: i32) -> (r: Result<
    Conversion,
    ConvertError,
>)
    requires
        valid_base(in_base as int),
        valid_base(out_base as int),
    ensures
        conversion_of(input@, in_base as int, out_base as int, r),
{
    let digits = match str_to_digits(input, in_base) {
        Ok(digits) => digits,
        Err(e) => {
            return Err(e);
        },
    };
    let decimal = match to_dec(&digits, in_base) {
        Ok(decimal) => decimal,
        Err(e) => {
            return Err(e);
        },
    };
    proof {
        lemma_value_bounds(digits@, in_base as int);
        lemma_value_digits(decimal as int, out_base as int);
    }
    let out_digits = to_other(decimal, out_base);
    let output = to_str(&out_digits);
    Ok(Conversion { in_base, out_base, decimal, output })
}

/// Converts the literal `input` from the base that the token `in_base` names
/// to the base that the token `out_base` names. The input base is resolved
/// first, then the output base, then the literal is converted; the first
/// failure is returned.
pub fn convert(input: &str, in_base: &str, out_base: &str) -> (r: Result<
    Conversion,
    ConvertError,
>)
    ensures
        match base_of_token(in_base@) {
            Err(e) => r == Err::<Conversion, ConvertError>(e),
            Ok(from) => match base_of_token(out_base@) {
                Err(e) => r == Err::<Conversion, ConvertError>(e),
                Ok(to) => conversion_of(input@, from as int, to as int, r),
            },
        },
{
    let from = match parse_base_input(in_base) {
        Ok(base) => base,
        Err(e) => {
            return Err(e);
        },
    };
    let to = match parse_base_input(out_base) {
        Ok(base) => base,
        Err(e) => {
            return Err(e);
        },
    };
    convert_number(input, from, to)
}

} // verus!
