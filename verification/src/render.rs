//! The text that reports a conversion: numbers in decimal, the summary line
//! and the worked derivations of both directions.

use vstd::prelude::*;
use vstd::arithmetic::power::{pow, lemma_pow_positive};
use vstd::string::{StrSliceExecFns, StringExecFns};
use crate::convert::{convertible, power, rejection_of, to_dec, to_other, Conversion};
use crate::error::ConvertError;
use crate::numeral::{
    digits_value, lemma_value_at_least_weight, lemma_value_bounds, lemma_value_prefix,
    lemma_value_take_step, valid_base, valid_digits, value_digits,
};
use crate::symbols::{digits_to_symbols, str_to_digits, symbols_to_digits, to_str, value_literal};

verus! {

/// Starts a dimmed stretch of terminal output.
pub const GRAY: &'static str = "\u{001b}[30;1m";

/// Ends a dimmed stretch of terminal output.
pub const RESET: &'static str = "\u{001b}[0m";

/// The decimal text of an integer: its digits without leading zeros, after a
/// minus sign when it is negative.
pub open spec fn decimal(value: int) -> Seq<char> {
    if value < 0 {
        seq!['-'] + value_literal(-value, 10)
    } else {
        value_literal(value, 10)
    }
}

/// A run of `count` spaces; empty when `count` is not positive.
pub open spec fn spaces(count: int) -> Seq<char> {
    if count <= 0 {
        Seq::empty()
    } else {
        Seq::new(count as nat, |i: int| ' ')
    }
}

/// Writes a natural number in decimal.
fn decimal_of_size(value: usize) -> (text: String)
    ensures
        text@ == decimal(value as int),
{
    let mut digits: Vec<i32> = Vec::new();
    let mut rest: usize = value;
    if value == 0 {
        digits.push(0);
        assert(digits@ =~= value_digits(0, 10));
    }
    while rest > 0
        invariant
            0 <= rest <= value,
            forall|k: int| 0 <= k < digits@.len() ==> 0 <= #[trigger] digits@[k] < 10,
            rest > 0 ==> digits@ + value_digits(rest as int, 10) == value_digits(value as int, 10),
            rest == 0 ==> digits@ == value_digits(value as int, 10),
        decreases rest,
    {
        let digit = (rest % 10) as i32;
        proof {
            if rest < 10 {
                assert(digits@.push(digit) =~= digits@ + value_digits(rest as int, 10));
            } else {
                assert(digits@.push(digit) + value_digits(rest as int / 10, 10) =~= digits@
                    + value_digits(rest as int, 10));
            }
        }
        rest = rest / 10;
        digits.push(digit);
    }
    to_str(&digits)
}

/// Writes a machine integer in decimal.
pub fn decimal_string(value: i32) -> (text: String)
    ensures
        text@ == decimal(value as int),
{
    if value < 0 {
        let magnitude = (-(value as i64)) as usize;
        let mut text = String::new();
        text.push('-');
        text.append(decimal_of_size(magnitude).as_str());
        assert(text@ =~= decimal(value as int));
        text
    } else {
        decimal_of_size(value as usize)
    }
}

/// Writes a run of `count` spaces.
fn blank(count: usize) -> (text: String)
    ensures
        text@ == spaces(count as int),
{
    let mut text = String::new();
    let mut i: usize = 0;
    while i < count
        invariant
            0 <= i <= count,
            text@.len() == i,
            forall|k: int| 0 <= k < i ==> #[trigger] text@[k] == ' ',
        decreases count - i,
    {
        text.push(' ');
        i += 1;
    }
    assert(text@ =~= spaces(count as int));
    text
}

/// The summary line of a conversion: the input literal with its base and the
/// decimal value, followed, unless the output base is ten, by the output
/// literal with its base.
pub open spec fn summary_text(
    input: Seq<char>,
    in_base: int,
    out_base: int,
    value: int,
    output: Seq<char>,
) -> Seq<char> {
    let head = input + " (Base "@ + decimal(in_base) + ") => "@ + decimal(value);
    if out_base == 10 {
        head
    } else {
        head + " => "@ + output + " (Base "@ + decimal(out_base) + ")"@
    }
}

/// Writes the summary line of `conversion`, which was made from the literal
/// `input`. The line has no line break at its end.
pub fn summary(input: &str, conversion: &Conversion) -> (line: String)
    ensures
        line@ == summary_text(
            input@,
            conversion.in_base as int,
            conversion.out_base as int,
            conversion.decimal as int,
            conversion.output@,
        ),
{
    let mut line = String::new();
    line.append(input);
    line.append(" (Base ");
    line.append(decimal_string(conversion.in_base).as_str());
    line.append(") => ");
    line.append(decimal_string(conversion.decimal).as_str());
    if conversion.out_base != 10 {
        line.append(" => ");
        line.append(conversion.output.as_str());
        line.append(" (Base ");
        line.append(decimal_string(conversion.out_base).as_str());
        line.append(")");
    }
    assert(line@ =~= summary_text(
        input@,
        conversion.in_base as int,
        conversion.out_base as int,
        conversion.decimal as int,
        conversion.output@,
    ));
    line
}

/// How a line of the worked evaluation opens: the first line with the
/// literal being evaluated and an equals sign, every later one with a plus
/// sign under that equals sign.
pub open spec fn term_lead(literal: Seq<char>, place: int) -> Seq<char> {
    if place == 0 {
        literal + " = "@
    } else {
        spaces(literal.len() as int + 1) + "+ "@
    }
}

/// A line of the worked evaluation: after its opening, the digit, the base
/// and the exponent, and the term they make.
pub open spec fn term_text(lead: Seq<char>, digit: int, base: int, place: int, term: int) -> Seq<
    char,
> {
    GRAY@ + lead + decimal(digit) + "*"@ + decimal(base) + "^"@ + decimal(place) + " = "@
        + decimal(term) + "\n"@ + RESET@
}

/// The line of the worked evaluation for the digit at `place`.
pub open spec fn term_line(literal: Seq<char>, digits: Seq<i32>, base: int, place: int) -> Seq<
    char,
> {
    term_text(
        term_lead(literal, place),
        digits[place] as int,
        base,
        place,
        digits[place] * pow(base, place as nat),
    )
}

/// The lines of the worked evaluation for the first `count` digits.
pub open spec fn term_lines(literal: Seq<char>, digits: Seq<i32>, base: int, count: int) -> Seq<
    char,
>
    decreases count,
{
    if count <= 0 {
        Seq::empty()
    } else {
        term_lines(literal, digits, base, count - 1) + term_line(literal, digits, base, count - 1)
    }
}

/// The worked evaluation of a digit sequence: a heading, one line for each
/// digit from the least significant up, and the value in decimal, followed by
/// an empty line.
pub open spec fn expansion_trace(digits: Seq<i32>, base: int) -> Seq<char> {
    let literal = digits_to_symbols(digits);
    "Converting "@ + literal + " (Base "@ + decimal(base) + ") to decimal\n"@ + term_lines(
        literal,
        digits,
        base,
        digits.len() as int,
    ) + "= "@ + decimal(digits_value(digits, base)) + " (Base 10)\n\n"@
}

/// Appends a line of the worked evaluation to `trace`.
fn write_term(trace: &mut String, lead: &String, digit: i32, base: i32, place: usize, term: i32)
    ensures
        final(trace)@ == old(trace)@ + term_text(
            lead@,
            digit as int,
            base as int,
            place as int,
            term as int,
        ),
{
    let mut line = String::new();
    line.append(GRAY);
    line.append(lead.as_str());
    line.append(decimal_string(digit).as_str());
    line.append("*");
    line.append(decimal_string(base).as_str());
    line.append("^");
    line.append(decimal_of_size(place).as_str());
    line.append(" = ");
    line.append(decimal_string(term).as_str());
    line.append("\n");
    line.append(RESET);
    assert(line@ =~= term_text(lead@, digit as int, base as int, place as int, term as int));
    trace.append(line.as_str());
}

/// Writes the heading of the worked evaluation.
fn expansion_heading(literal: &String, base: i32) -> (heading: String)
    ensures
        heading@ == "Converting "@ + literal@ + " (Base "@ + decimal(base as int)
            + ") to decimal\n"@,
{
    let mut heading = String::new();
    heading.append("Converting ");
    heading.append(literal.as_str());
    heading.append(" (Base ");
    heading.append(decimal_string(base).as_str());
    heading.append(") to decimal\n");
    heading
}

/// Writes the worked evaluation of the digit sequence `input` in base
/// `base`, whose value fits the machine integer.
pub fn to_dec_trace(input: &Vec<i32>, base: i32) -> (trace: String)
    requires
        valid_base(base as int),
        valid_digits(input@, base as int),
        digits_value(input@, base as int) <= i32::MAX,
    ensures
        trace@ == expansion_trace(input@, base as int),
{
    let literal = to_str(input);
    let mut first_lead = String::new();
    first_lead.append(literal.as_str());
    first_lead.append(" = ");
    let mut later_lead = blank(input.len());
    later_lead.push(' ');
    later_lead.append("+ ");
    assert(first_lead@ =~= term_lead(literal@, 0));
    assert(later_lead@ =~= term_lead(literal@, 1));
    let mut trace = expansion_heading(&literal, base);
    let ghost heading = trace@;
    let mut output: i32 = 0;
    let mut i: usize = 0;
    proof {
        assert(input@.take(0) =~= Seq::<i32>::empty());
        assert(trace@ =~= heading + term_lines(literal@, input@, base as int, 0));
    }
    while i < input.len()
        invariant
            0 <= i <= input@.len(),
            valid_base(base as int),
            valid_digits(input@, base as int),
            digits_value(input@, base as int) <= i32::MAX,
            first_lead@ == term_lead(literal@, 0),
            forall|place: int| place != 0 ==> later_lead@ == #[trigger] term_lead(literal@, place),
            output == digits_value(input@.take(i as int), base as int),
            trace@ == heading + term_lines(literal@, input@, base as int, i as int),
        decreases input@.len() - i,
    {
        let digit = input[i];
        proof {
            lemma_value_take_step(input@, base as int, i as int);
            lemma_value_prefix(input@, base as int, i as int + 1);
            lemma_pow_positive(base as int, i as nat);
            assert(valid_digits(input@.take(i as int), base as int));
            lemma_value_bounds(input@.take(i as int), base as int);
        }
        let term: i32 = if digit == 0 {
            assert(digit * pow(base as int, i as nat) == 0) by (nonlinear_arith)
                requires
                    digit == 0,
            ;
            0
        } else {
            proof {
                lemma_value_at_least_weight(input@, base as int, i as int);
            }
            let weight = power(base, i);
            assert(0 <= digit * weight) by (nonlinear_arith)
                requires
                    digit >= 0,
                    weight > 0,
            ;
            digit * weight
        };
        let ghost before = trace@;
        if i == 0 {
            write_term(&mut trace, &first_lead, digit, base, i, term);
        } else {
            write_term(&mut trace, &later_lead, digit, base, i, term);
        }
        proof {
            let lines = term_lines(literal@, input@, base as int, i as int);
            let line = term_line(literal@, input@, base as int, i as int);
            assert(trace@ == before + line);
            assert(heading + (lines + line) =~= (heading + lines) + line);
        }
        output = output + term;
        i += 1;
    }
    assert(input@.take(i as int) =~= input@);
    trace.append("= ");
    trace.append(decimal_string(output).as_str());
    trace.append(" (Base 10)\n\n");
    trace
}

/// The spaces that pad the text `narrow` to the width of the text `wide`.
pub open spec fn padding(wide: Seq<char>, narrow: Seq<char>) -> Seq<char> {
    spaces(wide.len() - narrow.len())
}

/// The line of the worked division for the dividend `current` on the way from
/// `value`: the dividend, the base, the quotient and the remainder, with the
/// dividend and the quotient padded to the width that they have in the first
/// line.
pub open spec fn division_line(value: int, base: int, current: int) -> Seq<char> {
    GRAY@ + decimal(current) + padding(decimal(value), decimal(current)) + " / "@ + decimal(base)
        + " = "@ + decimal(current / base) + padding(
        decimal(value / base),
        decimal(current / base),
    ) + " Rest "@ + decimal(current % base) + "\n"@ + RESET@
}

/// The lines of the worked division from the dividend `current` on, one for
/// each division until the quotient is zero.
pub open spec fn division_lines(value: int, base: int, current: int) -> Seq<char>
    decreases current,
    via division_lines_decreases
{
    if current <= 0 || base < 2 {
        Seq::empty()
    } else {
        division_line(value, base, current) + division_lines(value, base, current / base)
    }
}

#[via_fn]
proof fn division_lines_decreases(value: int, base: int, current: int) {
    if !(current <= 0 || base < 2) {
        assert(0 <= current / base < current) by (nonlinear_arith)
            requires
                2 <= base,
                0 < current,
        ;
    }
}

/// The worked generation of the digits of a value: a heading, one line for
/// each division, and the literal in the output base, followed by an empty
/// line.
pub open spec fn division_trace(value: int, base: int) -> Seq<char> {
    "Converting "@ + decimal(value) + " to Base "@ + decimal(base) + "\n"@ + division_lines(
        value,
        base,
        value,
    ) + "= "@ + value_literal(value, base) + " (Base "@ + decimal(base) + ")\n\n"@
}

/// Writes the spaces that pad `narrow` to the width of `wide`.
fn pad(wide: &String, narrow: &String) -> (text: String)
    ensures
        text@ == padding(wide@, narrow@),
{
    let wide_len = wide.as_str().unicode_len();
    let narrow_len = narrow.as_str().unicode_len();
    if wide_len >= narrow_len {
        blank(wide_len - narrow_len)
    } else {
        blank(0)
    }
}

/// Appends a line of the worked division to `trace`.
fn write_division(trace: &mut String, value: i32, base: i32, current: i32)
    requires
        valid_base(base as int),
        0 <= current <= value,
    ensures
        final(trace)@ == old(trace)@ + division_line(value as int, base as int, current as int),
{
    let current_text = decimal_string(current);
    let quotient_text = decimal_string(current / base);
    let mut line = String::new();
    line.append(GRAY);
    line.append(current_text.as_str());
    line.append(pad(&decimal_string(value), &current_text).as_str());
    line.append(" / ");
    line.append(decimal_string(base).as_str());
    line.append(" = ");
    line.append(quotient_text.as_str());
    line.append(pad(&decimal_string(value / base), &quotient_text).as_str());
    line.append(" Rest ");
    line.append(decimal_string(current % base).as_str());
    line.append("\n");
    line.append(RESET);
    assert(line@ =~= division_line(value as int, base as int, current as int));
    trace.append(line.as_str());
}

/// Writes the worked generation of the digits of the non-negative `input` in
/// base `base`.
pub fn to_other_trace(input: i32, base: i32) -> (trace: String)
    requires
        valid_base(base as int),
        input >= 0,
    ensures
        trace@ == division_trace(input as int, base as int),
{
    let base_text = decimal_string(base);
    let mut trace = String::new();
    trace.append("Converting ");
    trace.append(decimal_string(input).as_str());
    trace.append(" to Base ");
    trace.append(base_text.as_str());
    trace.append("\n");
    let ghost heading = trace@;
    let ghost all_lines = division_lines(input as int, base as int, input as int);
    let ghost mut done: Seq<char> = Seq::empty();
    let mut i: i32 = input;
    assert(trace@ =~= heading + done);
    assert(done + all_lines =~= all_lines);
    while i > 0
        invariant
            valid_base(base as int),
            0 <= i <= input,
            all_lines == division_lines(input as int, base as int, input as int),
            trace@ == heading + done,
            done + division_lines(input as int, base as int, i as int) == all_lines,
        decreases i,
    {
        let quotient = i / base;
        assert(0 <= quotient < i) by (nonlinear_arith)
            requires
                2 <= base,
                0 < i,
                quotient == i as int / base as int,
        ;
        write_division(&mut trace, input, base, i);
        proof {
            let line = division_line(input as int, base as int, i as int);
            let later = division_lines(input as int, base as int, quotient as int);
            assert((done + line) + later =~= done + (line + later));
            assert(heading + (done + line) =~= (heading + done) + line);
            done = done + line;
        }
        i = quotient;
    }
    assert(done =~= all_lines);
    let output = to_str(&to_other(input, base));
    trace.append("= ");
    trace.append(output.as_str());
    trace.append(" (Base ");
    trace.append(base_text.as_str());
    trace.append(")\n\n");
    trace
}

/// Everything that a conversion reports: with `verbose`, the worked
/// evaluation of the input literal and, unless the output base is ten, the
/// worked generation of the output digits; then the summary line, ended by
/// a line break.
pub open spec fn report_text(input: Seq<char>, in_base: int, out_base: int, verbose: bool) -> Seq<
    char,
> {
    let digits = symbols_to_digits(input);
    let value = digits_value(digits, in_base);
    let line = summary_text(input, in_base, out_base, value, value_literal(value, out_base))
        + "\n"@;
    if !verbose {
        line
    } else if out_base == 10 {
        expansion_trace(digits, in_base) + line
    } else {
        expansion_trace(digits, in_base) + division_trace(value, out_base) + line
    }
}

/// Converts the literal `input` from base `in_base` to base `out_base` and
/// writes the report of the conversion. A literal that cannot be converted is
/// rejected as `convert_number` rejects it.
pub fn report(input: &str, in_base: i32, out_base: i32, verbose: bool) -> (r: Result<
    String,
    ConvertError,
>)
    requires
        valid_base(in_base as int),
        valid_base(out_base as int),
    ensures
        match r {
            Ok(text) => convertible(input@, in_base as int) && text@ == report_text(
                input@,
                in_base as int,
                out_base as int,
                verbose,
            ),
            Err(e) => rejection_of(input@, in_base as int, e),
        },
{
    let digits = match str_to_digits(input, in_base) {
        Ok(digits) => digits,
        Err(e) => {
            return Err(e);
        },
    };
    proof {
        lemma_value_bounds(digits@, in_base as int);
    }
    let decimal = match to_dec(&digits, in_base) {
        Ok(decimal) => decimal,
        Err(e) => {
            return Err(e);
        },
    };
    let output = to_str(&to_other(decimal, out_base));
    let conversion = Conversion { in_base, out_base, decimal, output };
    let mut text = String::new();
    if verbose {
        text.append(to_dec_trace(&digits, in_base).as_str());
        if out_base != 10 {
            text.append(to_other_trace(decimal, out_base).as_str());
        }
    }
    text.append(summary(input, &conversion).as_str());
    text.append("\n");
    assert(text@ =~= report_text(input@, in_base as int, out_base as int, verbose));
    Ok(text)
}

} // verus!
