use base_converter::{
    find_arr_index, str_to_digits, str_to_vec, symbol_digit, to_str, ConvertError, CHAR_LIST,
};

#[test]
fn the_table_lists_digits_then_capital_letters() {
    let symbols: String = CHAR_LIST.iter().map(|byte| *byte as char).collect();
    assert_eq!(symbols, "0123456789ABCDEFGHIJKLMNOPQRSTUVWXYZ");
}

#[test]
fn find_arr_index_returns_the_first_match() {
    assert_eq!(find_arr_index(&[5, 7, 7, 9], 7), 1);
    assert_eq!(find_arr_index(&[5, 7, 7, 9], 5), 0);
    assert_eq!(find_arr_index(&[5, 7, 7, 9], 9), 3);
}

#[test]
fn find_arr_index_returns_minus_one_without_a_match() {
    assert_eq!(find_arr_index(&[5, 7, 7, 9], 6), -1);
    let empty: [u8; 0] = [];
    assert_eq!(find_arr_index(&empty, 6), -1);
}

#[test]
fn find_arr_index_finds_every_symbol_at_its_value() {
    for (value, symbol) in CHAR_LIST.iter().enumerate() {
        assert_eq!(find_arr_index(&CHAR_LIST, *symbol), value as i32);
    }
}

#[test]
fn symbol_digit_inverts_the_table() {
    assert_eq!(symbol_digit('0'), 0);
    assert_eq!(symbol_digit('9'), 9);
    assert_eq!(symbol_digit('A'), 10);
    assert_eq!(symbol_digit('F'), 15);
    assert_eq!(symbol_digit('Z'), 35);
}

#[test]
fn symbol_digit_rejects_other_characters() {
    assert_eq!(symbol_digit('a'), -1);
    assert_eq!(symbol_digit('z'), -1);
    assert_eq!(symbol_digit(' '), -1);
    assert_eq!(symbol_digit('-'), -1);
    assert_eq!(symbol_digit('/'), -1);
    assert_eq!(symbol_digit(':'), -1);
    assert_eq!(symbol_digit('@'), -1);
    assert_eq!(symbol_digit('['), -1);
    // U+0130 ends in the byte 0x30, the code of the symbol 0.
    assert_eq!(symbol_digit('\u{130}'), -1);
    assert_eq!(symbol_digit('\u{141}'), -1);
}

#[test]
fn str_to_vec_stores_the_last_symbol_first() {
    assert_eq!(str_to_vec("FF"), Ok(vec![15, 15]));
    assert_eq!(str_to_vec("1A0"), Ok(vec![0, 10, 1]));
    assert_eq!(str_to_vec("Z"), Ok(vec![35]));
    assert_eq!(str_to_vec("0123456789"), Ok(vec![9, 8, 7, 6, 5, 4, 3, 2, 1, 0]));
}

#[test]
fn str_to_vec_of_the_empty_literal_is_empty() {
    assert_eq!(str_to_vec(""), Ok(vec![]));
}

#[test]
fn str_to_vec_rejects_the_first_unknown_symbol_from_the_left() {
    assert_eq!(str_to_vec("ff"), Err(ConvertError::InvalidDigit { position: 0 }));
    assert_eq!(str_to_vec("F f"), Err(ConvertError::InvalidDigit { position: 1 }));
    assert_eq!(str_to_vec("12.5x"), Err(ConvertError::InvalidDigit { position: 2 }));
    assert_eq!(str_to_vec("-1"), Err(ConvertError::InvalidDigit { position: 0 }));
    assert_eq!(str_to_vec("ABC\u{e9}"), Err(ConvertError::InvalidDigit { position: 3 }));
}

#[test]
fn positions_count_characters() {
    assert_eq!(str_to_vec("1\u{e9}2\u{e9}"), Err(ConvertError::InvalidDigit { position: 1 }));
    assert_eq!(str_to_digits("12\u{1F600}3", 10), Err(ConvertError::InvalidDigit { position: 2 }));
}

#[test]
fn str_to_digits_accepts_the_digits_of_the_base() {
    assert_eq!(str_to_digits("1011", 2), Ok(vec![1, 1, 0, 1]));
    assert_eq!(str_to_digits("777", 8), Ok(vec![7, 7, 7]));
    assert_eq!(str_to_digits("FF", 16), Ok(vec![15, 15]));
    assert_eq!(str_to_digits("ZZ", 36), Ok(vec![35, 35]));
}

#[test]
fn str_to_digits_rejects_a_digit_the_base_lacks() {
    assert_eq!(str_to_digits("102", 2), Err(ConvertError::InvalidDigit { position: 2 }));
    assert_eq!(str_to_digits("8", 8), Err(ConvertError::InvalidDigit { position: 0 }));
    assert_eq!(str_to_digits("FG", 16), Err(ConvertError::InvalidDigit { position: 1 }));
    assert_eq!(str_to_digits("Z", 16), Err(ConvertError::InvalidDigit { position: 0 }));
    assert_eq!(str_to_digits("1G?", 16), Err(ConvertError::InvalidDigit { position: 1 }));
    assert_eq!(str_to_digits("1?G", 16), Err(ConvertError::InvalidDigit { position: 1 }));
}

#[test]
fn to_str_shows_the_last_digit_first() {
    assert_eq!(to_str(&vec![15, 15]), "FF");
    assert_eq!(to_str(&vec![0, 10, 1]), "1A0");
    assert_eq!(to_str(&vec![35]), "Z");
    assert_eq!(to_str(&vec![0]), "0");
}

#[test]
fn to_str_of_no_digits_is_empty() {
    assert_eq!(to_str(&vec![]), "");
}

#[test]
fn to_str_undoes_str_to_vec() {
    for literal in ["0", "7", "10", "FF", "HELLO", "0123456789ABCDEFGHIJKLMNOPQRSTUVWXYZ", "007"] {
        assert_eq!(to_str(&str_to_vec(literal).unwrap()), literal);
    }
}

#[test]
fn str_to_vec_undoes_to_str() {
    let digits: Vec<i32> = (0..36).collect();
    assert_eq!(str_to_vec(&to_str(&digits)), Ok(digits));
}
