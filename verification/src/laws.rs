//! Laws that relate reading a literal and writing a value.

use vstd::prelude::*;
use crate::convert::{conversion_of, Conversion};
use crate::error::ConvertError;
use crate::numeral::{
    lemma_digits_round_trip, lemma_trim_digits, lemma_value_digits, trim_digits, valid_base,
    valid_digits, value_digits,
};
use crate::symbols::{
    digit_of, digits_to_symbols, is_digit_symbol, lemma_digit_of_symbol, lemma_literal_digits,
    lemma_symbol_of_digit, literal_value, symbols_to_digits, valid_literal, value_literal,
};

verus! {

/// A canonical literal holds at least one symbol and, unless it is a single
/// symbol, does not start with the symbol `0`.
pub open spec fn canonical_literal(s: Seq<char>) -> bool {
    s.len() >= 1 && (s.len() == 1 || s[0] != '0')
}

/// The literal without its leading zeros; the empty literal and a literal of
/// zeros become the literal `0`.
pub open spec fn normal_literal(s: Seq<char>) -> Seq<char>
    decreases s.len(),
{
    if s.len() == 0 {
        seq!['0']
    } else if s.len() > 1 && s[0] == '0' {
        normal_literal(s.skip(1))
    } else {
        s
    }
}

/// Encoding the digits that a literal shows gives the literal back, when
/// every symbol of the literal is in the symbol table.
pub proof fn law_decode_encode(s: Seq<char>)
    requires
        valid_literal(s, 36),
    ensures
        digits_to_symbols(symbols_to_digits(s)) == s,
{
    let back = digits_to_symbols(symbols_to_digits(s));
    assert forall|i: int| 0 <= i < s.len() implies back[i] == s[i] by {
        assert(is_digit_symbol(s[i], 36));
        lemma_symbol_of_digit(s[i]);
    }
    assert(back =~= s);
}

/// Decoding the literal that shows a digit sequence gives the digit sequence
/// back, when every digit has a symbol.
pub proof fn law_encode_decode(digits: Seq<i32>)
    requires
        valid_digits(digits, 36),
    ensures
        valid_literal(digits_to_symbols(digits), 36),
        symbols_to_digits(digits_to_symbols(digits)) == digits,
{
    let s = digits_to_symbols(digits);
    let back = symbols_to_digits(s);
    assert forall|i: int| 0 <= i < digits.len() implies back[i] == digits[i] by {
        lemma_digit_of_symbol(digits[i] as int);
    }
    assert(back =~= digits);
    assert forall|i: int| 0 <= i < s.len() implies is_digit_symbol(#[trigger] s[i], 36) by {
        lemma_digit_of_symbol(digits[digits.len() - 1 - i] as int);
    }
}

/// Writing a non-negative value and reading the literal back gives the
/// value, and the literal written is valid in its base and canonical.
pub proof fn law_write_read(value: int, base: int)
    requires
        valid_base(base),
        value >= 0,
    ensures
        valid_literal(value_literal(value, base), base),
        canonical_literal(value_literal(value, base)),
        literal_value(value_literal(value, base), base) == value,
{
    let digits = value_digits(value, base);
    let s = value_literal(value, base);
    lemma_value_digits(value, base);
    law_encode_decode(digits);
    assert forall|i: int| 0 <= i < s.len() implies is_digit_symbol(#[trigger] s[i], base) by {
        lemma_digit_of_symbol(digits[digits.len() - 1 - i] as int);
    }
    if s.len() > 1 {
        lemma_digit_of_symbol(digits.last() as int);
    }
}

/// Reading a valid literal and writing its value in the same base gives the
/// literal back without its leading zeros; a canonical literal comes back
/// unchanged.
pub proof fn law_read_write(s: Seq<char>, base: int)
    requires
        valid_base(base),
        valid_literal(s, base),
    ensures
        value_literal(literal_value(s, base), base) == normal_literal(s),
        canonical_literal(s) ==> value_literal(literal_value(s, base), base) == s,
{
    let digits = symbols_to_digits(s);
    lemma_literal_digits(s, base);
    lemma_trim_digits(digits, base);
    lemma_digits_round_trip(trim_digits(digits), base);
    lemma_trimmed_literal(s, base);
}

/// The digits of a literal without their leading zeros are the digits of
/// the literal without its leading zeros.
proof fn lemma_trimmed_literal(s: Seq<char>, base: int)
    requires
        valid_base(base),
        valid_literal(s, base),
    ensures
        digits_to_symbols(trim_digits(symbols_to_digits(s))) == normal_literal(s),
        canonical_literal(s) ==> normal_literal(s) == s,
    decreases s.len(),
{
    let digits = symbols_to_digits(s);
    if s.len() == 0 {
        assert(digits_to_symbols(seq![0i32]) =~= seq!['0']);
    } else {
        assert(is_digit_symbol(s[0], base));
        assert(digits.last() == digit_of(s[0]));
        if s.len() > 1 && s[0] == '0' {
            let rest = s.skip(1);
            assert(digits.drop_last() =~= symbols_to_digits(rest));
            assert(valid_literal(rest, base)) by {
                assert forall|i: int| 0 <= i < rest.len() implies is_digit_symbol(
                    #[trigger] rest[i],
                    base,
                ) by {
                    assert(rest[i] == s[i + 1]);
                }
            }
            lemma_trimmed_literal(rest, base);
        } else {
            assert(trim_digits(digits) == digits);
            assert(valid_literal(s, 36));
            law_decode_encode(s);
        }
    }
}

/// A conversion from a base to the same base returns the input literal
/// without its leading zeros, and a canonical input literal unchanged.
pub proof fn law_same_base(input: Seq<char>, base: int, r: Result<Conversion, ConvertError>)
    requires
        valid_base(base),
        conversion_of(input, base, base, r),
        r is Ok,
    ensures
        r->Ok_0.output@ == normal_literal(input),
        canonical_literal(input) ==> r->Ok_0.output@ == input,
{
    law_read_write(input, base);
}

} // verus!
