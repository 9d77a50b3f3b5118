//! The symbol table that maps digit values to display characters and back,
//! and the conversion between number literals and digit sequences.
//!
//! A digit sequence stores the least significant digit first; a literal
//! shows the most significant digit first.

use vstd::prelude::*;
use vstd::std_specs::cmp::PartialEqSpec;
use crate::error::ConvertError;
use crate::numeral::{
    digits_value, lemma_value_horner, valid_base, valid_digits, value_digits,
};
use crate::text::chars_of;

verus! {

/// The display symbols in order of digit value: `0` to `9`, then `A` to `Z`.
pub const CHAR_LIST: [u8; 36] = [
    '0' as u8, '1' as u8, '2' as u8, '3' as u8, '4' as u8, '5' as u8,
    '6' as u8, '7' as u8, '8' as u8, '9' as u8, 'A' as u8, 'B' as u8,
    'C' as u8, 'D' as u8, 'E' as u8, 'F' as u8, 'G' as u8, 'H' as u8,
    'I' as u8, 'J' as u8, 'K' as u8, 'L' as u8, 'M' as u8, 'N' as u8,
    'O' as u8, 'P' as u8, 'Q' as u8, 'R' as u8, 'S' as u8, 'T' as u8,
    'U' as u8, 'V' as u8, 'W' as u8, 'X' as u8, 'Y' as u8, 'Z' as u8,
];

/// The symbol that displays the digit value `digit`, for `0 <= digit < 36`.
pub open spec fn symbol_of(digit: int) -> char {
    CHAR_LIST@[digit] as char
}

/// The digit value that the symbol `c` displays, or `-1` when `c` is not in
/// the symbol table.
pub open spec fn digit_of(c: char) -> int {
    if '0' <= c && c <= '9' {
        c as int - '0' as int
    } else if 'A' <= c && c <= 'Z' {
        c as int - 'A' as int + 10
    } else {
        -1
    }
}

/// Whether `c` displays a digit of the numeral system with base `base`.
pub open spec fn is_digit_symbol(c: char, base: int) -> bool {
    0 <= digit_of(c) < base
}

/// Whether every symbol of the literal `s` is a digit of base `base`.
pub open spec fn valid_literal(s: Seq<char>, base: int) -> bool {
    forall|i: int| 0 <= i < s.len() ==> is_digit_symbol(#[trigger] s[i], base)
}

/// Whether `position` is the place of the first symbol of `s` from the left
/// that is not a digit of base `base`.
pub open spec fn first_invalid_symbol(s: Seq<char>, base: int, position: int) -> bool {
    &&& 0 <= position < s.len()
    &&& !is_digit_symbol(s[position], base)
    &&& valid_literal(s.take(position), base)
}

/// The digit sequence that the literal `s` shows: the last symbol of `s`
/// gives the first digit.
pub open spec fn symbols_to_digits(s: Seq<char>) -> Seq<i32> {
    Seq::new(s.len(), |i: int| digit_of(s[s.len() - 1 - i]) as i32)
}

/// The literal that shows the digit sequence `digits`: the last digit gives
/// the first symbol.
pub open spec fn digits_to_symbols(digits: Seq<i32>) -> Seq<char> {
    Seq::new(digits.len(), |i: int| symbol_of(digits[digits.len() - 1 - i] as int))
}

/// The value of the literal `s` read in base `base`.
pub open spec fn literal_value(s: Seq<char>, base: int) -> int {
    digits_value(symbols_to_digits(s), base)
}

/// The literal that writes the non-negative `value` in base `base`, without
/// leading zeros.
pub open spec fn value_literal(value: int, base: int) -> Seq<char> {
    digits_to_symbols(value_digits(value, base))
}

/// Appending a symbol to a literal multiplies its value by the base and adds
/// the digit of the symbol.
pub proof fn lemma_literal_value_push(s: Seq<char>, c: char, base: int)
    ensures
        literal_value(s.push(c), base) == base * literal_value(s, base) + digit_of(c),
{
    let digits = symbols_to_digits(s.push(c));
    assert(digits.skip(1) =~= symbols_to_digits(s));
    lemma_value_horner(digits, base);
}

/// The digits that a valid literal shows are valid digits of its base.
pub proof fn lemma_literal_digits(s: Seq<char>, base: int)
    requires
        valid_literal(s, base),
        base <= 36,
    ensures
        valid_digits(symbols_to_digits(s), base),
{
    let digits = symbols_to_digits(s);
    assert forall|i: int| 0 <= i < digits.len() implies 0 <= #[trigger] digits[i] < base by {
        assert(is_digit_symbol(s[s.len() - 1 - i], base));
    }
}

/// The symbol table is a bijection between the digit values 0 to 35 and the
/// symbols `0` to `9` and `A` to `Z`: `digit_of` undoes `symbol_of`.
pub proof fn lemma_digit_of_symbol(digit: int)
    requires
        0 <= digit < 36,
    ensures
        digit_of(symbol_of(digit)) == digit,
{
}

/// `symbol_of` undoes `digit_of` on every symbol of the table.
pub proof fn lemma_symbol_of_digit(c: char)
    requires
        digit_of(c) >= 0,
    ensures
        0 <= digit_of(c) < 36,
        symbol_of(digit_of(c)) == c,
{
}

/// Returns the index of the first element of `arr` equal to `item`, or `-1`
/// when no element is equal to it.
///
/// The index is returned as a machine integer, so the slice may not be longer
/// than the largest one. What the result is worth depends on the `==` of `T`:
/// where `==` is specified, the result is exactly the first match.
pub fn find_arr_index<T: PartialEq>(arr: &[T], item: T) -> (r: i32)
    requires
        arr@.len() <= i32::MAX,
    ensures
        -1 <= r < arr@.len(),
        T::obeys_eq_spec() && r >= 0 ==> arr@[r as int].eq_spec(&item),
        T::obeys_eq_spec() ==> forall|j: int|
            0 <= j < arr@.len() && (j < r || r == -1) ==> !(#[trigger] arr@[j]).eq_spec(&item),
{
    let mut i: usize = 0;
    while i < arr.len()
        invariant
            0 <= i <= arr@.len() <= i32::MAX,
            T::obeys_eq_spec() ==> forall|j: int|
                0 <= j < i ==> !(#[trigger] arr@[j]).eq_spec(&item),
        decreases arr@.len() - i,
    {
        if arr[i] == item {
            return i as i32;
        }
        i += 1;
    }
    -1
}

/// Looks the character `c` up in the symbol table: its digit value, or `-1`
/// when the table does not hold it.
pub fn symbol_digit(c: char) -> (digit: i32)
    ensures
        digit == digit_of(c),
{
    if (c as u32) < 128 {
        find_arr_index(&CHAR_LIST, c as u8)
    } else {
        -1
    }
}

/// Decodes the literal `input` into the digit sequence it shows in base
/// `base`, least significant digit first. A literal that holds a symbol which
/// is not a digit of that base is rejected with the position of the first
/// such symbol from the left.
pub fn str_to_digits(input: &str, base: i32) -> (r: Result<Vec<i32>, ConvertError>)
    requires
        valid_base(base as int),
    ensures
        match r {
            Ok(digits) => {
                &&& valid_literal(input@, base as int)
                &&& digits@ == symbols_to_digits(input@)
                &&& valid_digits(digits@, base as int)
            },
            Err(ConvertError::InvalidDigit { position }) => first_invalid_symbol(
                input@,
                base as int,
                position as int,
            ),
            Err(_) => false,
        },
{
    let chars = chars_of(input);
    let n = chars.len();
    let mut output: Vec<i32> = Vec::new();
    let mut invalid: Option<usize> = None;
    let ghost mut first_bad: int = n as int;
    let mut i: usize = n;
    while i > 0
        invariant
            chars@ == input@,
            n == chars@.len(),
            0 <= i <= n,
            output@.len() == n - i,
            forall|k: int|
                0 <= k < output@.len() ==> #[trigger] output@[k] == digit_of(input@[n - 1 - k]),
            forall|k: int|
                i <= k < first_bad ==> is_digit_symbol(#[trigger] input@[k], base as int),
            first_bad == match invalid {
                Some(position) => position as int,
                None => n as int,
            },
            invalid matches Some(position) ==> i <= position < n && !is_digit_symbol(
                input@[position as int],
                base as int,
            ),
        decreases i,
    {
        i -= 1;
        let digit = symbol_digit(chars[i]);
        if digit < 0 || digit >= base {
            invalid = Some(i);
            proof {
                first_bad = i as int;
            }
        }
        output.push(digit);
    }
    match invalid {
        Some(position) => Err(ConvertError::InvalidDigit { position }),
        None => {
            assert(output@ =~= symbols_to_digits(input@));
            proof {
                lemma_literal_digits(input@, base as int);
            }
            Ok(output)
        },
    }
}

/// Decodes the literal `input` into the digit sequence it shows, least
/// significant digit first, accepting every symbol of the table. A literal
/// that holds any other character is rejected with the position of the first
/// such character from the left.
pub fn str_to_vec(input: &str) -> (r: Result<Vec<i32>, ConvertError>)
    ensures
        match r {
            Ok(digits) => {
                &&& valid_literal(input@, 36)
                &&& digits@ == symbols_to_digits(input@)
                &&& valid_digits(digits@, 36)
            },
            Err(ConvertError::InvalidDigit { position }) => first_invalid_symbol(
                input@,
                36,
                position as int,
            ),
            Err(_) => false,
        },
{
    str_to_digits(input, 36)
}

/// Encodes the digit sequence `input` as the literal that shows it, most
/// significant digit first. The empty sequence gives the empty literal.
pub fn to_str(input: &Vec<i32>) -> (output: String)
    requires
        valid_digits(input@, 36),
    ensures
        output@ == digits_to_symbols(input@),
{
    let mut output = String::new();
    let n = input.len();
    let mut i: usize = n;
    while i > 0
        invariant
            n == input@.len(),
            0 <= i <= n,
            valid_digits(input@, 36),
            output@.len() == n - i,
            forall|k: int|
                0 <= k < output@.len() ==> #[trigger] output@[k] == symbol_of(
                    input@[n - 1 - k] as int,
                ),
        decreases i,
    {
        i -= 1;
        let j = input[i] as usize;
        output.push(CHAR_LIST[j] as char);
    }
    assert(output@ =~= digits_to_symbols(input@));
    output
}

} // verus!
