//! Conversion of number literals between positional numeral systems with
//! bases 2 to 36, with machine-checked contracts.
//!
//! A literal such as `FF` is decoded into a digit sequence, the digit
//! sequence is evaluated in its base, and the value is written again in
//! another base. Every step states what it returns and is proved to return
//! it.

pub mod base;
pub mod convert;
pub mod error;
pub mod laws;
pub mod numeral;
pub mod render;
pub mod symbols;
pub mod text;

pub use crate::base::parse_base_input;
pub use crate::convert::{convert, convert_number, to_dec, to_other, Conversion};
pub use crate::error::ConvertError;
pub use crate::render::{decimal_string, report, summary, to_dec_trace, to_other_trace};
pub use crate::symbols::{
    find_arr_index, str_to_digits, str_to_vec, symbol_digit, to_str, CHAR_LIST,
};
