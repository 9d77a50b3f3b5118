//! Resolution of a base token: a named alias or a decimal integer from 2 to
//! 36.

use vstd::prelude::*;
use crate::error::ConvertError;
use crate::numeral::valid_base;
use crate::symbols::{
    is_digit_symbol, lemma_literal_value_push, literal_value, symbol_digit, symbols_to_digits,
    valid_literal,
};
use crate::text::chars_of;

verus! {

/// The lower-case form of an upper-case ASCII letter; any other character
/// unchanged.
pub open spec fn ascii_lower(c: char) -> char {
    if 'A' <= c && c <= 'Z' {
        ((c as u8 + 32) as u8) as char
    } else {
        c
    }
}

/// The token with each upper-case ASCII letter replaced by its lower-case
/// form.
pub open spec fn lowered(token: Seq<char>) -> Seq<char> {
    Seq::new(token.len(), |i: int| ascii_lower(token[i]))
}

/// The base that the token names as an alias, whatever the case of its
/// letters: `hex`, `dec`, `oct` or `bin`.
pub open spec fn alias_base(token: Seq<char>) -> Option<i32> {
    if lowered(token) == "hex"@ {
        Some(16i32)
    } else if lowered(token) == "dec"@ {
        Some(10i32)
    } else if lowered(token) == "oct"@ {
        Some(8i32)
    } else if lowered(token) == "bin"@ {
        Some(2i32)
    } else {
        None
    }
}

/// Whether the token starts with a sign, `+` or `-`.
pub open spec fn has_sign(token: Seq<char>) -> bool {
    token.len() > 0 && (token[0] == '+' || token[0] == '-')
}

/// The token without its sign, if it has one.
pub open spec fn unsigned_part(token: Seq<char>) -> Seq<char> {
    if has_sign(token) {
        token.skip(1)
    } else {
        token
    }
}

/// The integer that the token writes in decimal: an optional sign `+` or `-`
/// followed by one or more decimal digits and nothing else, with a value that
/// fits the machine integer.
pub open spec fn integer_of_token(token: Seq<char>) -> Option<i32> {
    let body = unsigned_part(token);
    let magnitude = literal_value(body, 10);
    let value = if has_sign(token) && token[0] == '-' { -magnitude } else { magnitude };
    if body.len() > 0 && valid_literal(body, 10) && i32::MIN <= value <= i32::MAX {
        Some(value as i32)
    } else {
        None
    }
}

/// The base that a token resolves to: an alias names its base; any other
/// token must write a decimal integer, which must lie between 2 and 36.
pub open spec fn base_of_token(token: Seq<char>) -> Result<i32, ConvertError> {
    match alias_base(token) {
        Some(base) => Ok(base),
        None => match integer_of_token(token) {
            None => Err(ConvertError::UnparsableBase),
            Some(base) => if valid_base(base as int) {
                Ok(base)
            } else {
                Err(ConvertError::UnsupportedBase { base })
            },
        },
    }
}

/// Replaces each upper-case ASCII letter by its lower-case form.
fn lowercase(token: &Vec<char>) -> (lower: Vec<char>)
    ensures
        lower@ == lowered(token@),
{
    let mut lower: Vec<char> = Vec::new();
    let mut i: usize = 0;
    while i < token.len()
        invariant
            0 <= i <= token@.len(),
            lower@.len() == i,
            forall|k: int| 0 <= k < i ==> #[trigger] lower@[k] == ascii_lower(token@[k]),
        decreases token@.len() - i,
    {
        let c = token[i];
        if 'A' <= c && c <= 'Z' {
            lower.push((c as u8 + 32) as char);
        } else {
            lower.push(c);
        }
        i += 1;
    }
    assert(lower@ =~= lowered(token@));
    lower
}

/// Whether the characters of `token` spell `word`.
fn spells(token: &Vec<char>, word: &str) -> (same: bool)
    ensures
        same == (token@ == word@),
{
    let letters = chars_of(word);
    if token.len() != letters.len() {
        return false;
    }
    let mut i: usize = 0;
    while i < token.len()
        invariant
            0 <= i <= token@.len(),
            token@.len() == letters@.len(),
            letters@ == word@,
            forall|k: int| 0 <= k < i ==> #[trigger] token@[k] == letters@[k],
        decreases token@.len() - i,
    {
        if token[i] != letters[i] {
            return false;
        }
        i += 1;
    }
    assert(token@ =~= word@);
    true
}

/// Reads a decimal integer with an optional sign, as `integer_of_token`
/// defines it.
fn parse_integer(token: &Vec<char>) -> (r: Option<i32>)
    ensures
        r == integer_of_token(token@),
{
    let n = token.len();
    if n == 0 {
        return None;
    }
    let negative = token[0] == '-';
    let start: usize = if token[0] == '+' || token[0] == '-' { 1 } else { 0 };
    if start == n {
        return None;
    }
    let ghost body = unsigned_part(token@);
    assert(body =~= token@.skip(start as int));
    let bound: i64 = 0x8000_0000;
    let mut magnitude: i64 = 0;
    let mut too_large = false;
    let mut i: usize = start;
    proof {
        assert(body.take(0) =~= Seq::<char>::empty());
        assert(symbols_to_digits(body.take(0)) =~= Seq::<i32>::empty());
    }
    while i < n
        invariant
            start <= i <= n,
            n == token@.len(),
            body == unsigned_part(token@),
            body =~= token@.skip(start as int),
            bound == 0x8000_0000,
            valid_literal(body.take(i - start), 10),
            !too_large ==> 0 <= magnitude <= bound && magnitude == literal_value(
                body.take(i - start),
                10,
            ),
            too_large ==> literal_value(body.take(i - start), 10) > bound,
        decreases n - i,
    {
        let digit = symbol_digit(token[i]);
        if digit < 0 || digit >= 10 {
            assert(!is_digit_symbol(body[i - start], 10));
            return None;
        }
        proof {
            let before = body.take(i - start);
            assert(body.take(i + 1 - start) =~= before.push(body[i - start]));
            lemma_literal_value_push(before, body[i - start], 10);
            assert(valid_literal(before.push(body[i - start]), 10)) by {
                assert forall|k: int| 0 <= k < before.len() + 1 implies is_digit_symbol(
                    #[trigger] before.push(body[i - start])[k],
                    10,
                ) by {
                    if k < before.len() {
                        assert(before.push(body[i - start])[k] == before[k]);
                    }
                }
            }
        }
        if !too_large {
            magnitude = magnitude * 10 + digit as i64;
            if magnitude > bound {
                too_large = true;
            }
        }
        i += 1;
    }
    assert(body.take(n - start) =~= body);
    if too_large {
        None
    } else if negative {
        Some((-magnitude) as i32)
    } else if magnitude > i32::MAX as i64 {
        None
    } else {
        Some(magnitude as i32)
    }
}

/// Resolves a base token. The aliases `hex`, `dec`, `oct` and `bin` name the
/// bases 16, 10, 8 and 2, whatever the case of their letters. Any other token
/// must write a decimal integer that fits the machine integer, and that
/// integer must lie between 2 and 36.
pub fn parse_base_input(input: &str) -> (r: Result<i32, ConvertError>)
    ensures
        r == base_of_token(input@),
        r matches Ok(base) ==> valid_base(base as int),
{
    let token = chars_of(input);
    let lower = lowercase(&token);
    let result: i32 = if spells(&lower, "hex") {
        16
    } else if spells(&lower, "dec") {
        10
    } else if spells(&lower, "oct") {
        8
    } else if spells(&lower, "bin") {
        2
    } else {
        match parse_integer(&token) {
            Some(value) => value,
            None => {
                return Err(ConvertError::UnparsableBase);
            },
        }
    };
    if result < 2 || result > 36 {
        return Err(ConvertError::UnsupportedBase { base: result });
    }
    Ok(result)
}

} // verus!
