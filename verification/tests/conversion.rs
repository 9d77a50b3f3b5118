use base_converter::{convert, convert_number, Conversion, ConvertError};

#[test]
fn hex_ff_is_decimal_255() {
    let conversion = convert("FF", "hex", "dec").unwrap();
    assert_eq!(conversion.decimal, 255);
    assert_eq!(conversion.in_base, 16);
    assert_eq!(conversion.out_base, 10);
    assert_eq!(conversion.output, "255");
}

#[test]
fn decimal_255_is_hex_ff() {
    let conversion = convert("255", "dec", "hex").unwrap();
    assert_eq!(conversion.decimal, 255);
    assert_eq!(conversion.in_base, 10);
    assert_eq!(conversion.out_base, 16);
    assert_eq!(conversion.output, "FF");
}

#[test]
fn decimal_zero_is_hex_zero() {
    let conversion = convert("0", "dec", "hex").unwrap();
    assert_eq!(conversion.decimal, 0);
    assert_eq!(conversion.output, "0");
}

#[test]
fn symbol_outside_the_base_is_rejected() {
    assert_eq!(convert("Z", "hex", "dec"), Err(ConvertError::InvalidDigit { position: 0 }));
}

#[test]
fn lower_case_digits_are_rejected() {
    assert_eq!(convert("ff", "hex", "dec"), Err(ConvertError::InvalidDigit { position: 0 }));
    assert_eq!(convert("Ff", "hex", "dec"), Err(ConvertError::InvalidDigit { position: 1 }));
}

#[test]
fn convert_takes_aliases_and_numbers_as_bases() {
    let expected =
        Conversion { in_base: 8, out_base: 2, decimal: 63, output: "111111".to_string() };
    assert_eq!(convert("77", "oct", "bin"), Ok(expected.clone()));
    assert_eq!(convert("77", "8", "2"), Ok(expected.clone()));
    assert_eq!(convert("77", "OCT", "+2"), Ok(expected));
}

#[test]
fn convert_reports_the_input_base_first() {
    assert_eq!(convert("?", "nope", "99"), Err(ConvertError::UnparsableBase));
    assert_eq!(convert("?", "99", "nope"), Err(ConvertError::UnsupportedBase { base: 99 }));
}

#[test]
fn convert_reports_the_output_base_before_the_literal() {
    assert_eq!(convert("?", "hex", "nope"), Err(ConvertError::UnparsableBase));
    assert_eq!(convert("?", "hex", "1"), Err(ConvertError::UnsupportedBase { base: 1 }));
    assert_eq!(convert("?", "hex", "2"), Err(ConvertError::InvalidDigit { position: 0 }));
}

#[test]
fn convert_rejects_values_beyond_the_machine_integer() {
    assert_eq!(convert("80000000", "hex", "dec"), Err(ConvertError::Overflow));
    assert_eq!(convert("2147483648", "dec", "hex"), Err(ConvertError::Overflow));
    assert_eq!(convert("ZZZZZZZ", "36", "2"), Err(ConvertError::Overflow));
    let conversion = convert("7FFFFFFF", "hex", "dec").unwrap();
    assert_eq!(conversion.decimal, 2147483647);
    assert_eq!(conversion.output, "2147483647");
}

#[test]
fn an_invalid_symbol_is_reported_before_an_overflow() {
    assert_eq!(
        convert("FFFFFFFFFFFFFFFFFFFFG", "hex", "dec"),
        Err(ConvertError::InvalidDigit { position: 20 })
    );
}

#[test]
fn the_empty_literal_is_zero() {
    let conversion = convert("", "hex", "bin").unwrap();
    assert_eq!(conversion.decimal, 0);
    assert_eq!(conversion.output, "0");
}

#[test]
fn convert_number_takes_resolved_bases() {
    let conversion = convert_number("HELLO", 36, 7).unwrap();
    assert_eq!(conversion.in_base, 36);
    assert_eq!(conversion.out_base, 7);
    assert_eq!(conversion.decimal, 29234652);
    assert_eq!(conversion.output, "503330136");
    assert_eq!(convert_number("503330136", 7, 36).unwrap().output, "HELLO");
}

#[test]
fn a_canonical_literal_survives_the_round_trip() {
    let literals = ["0", "1", "10", "11", "1000", "101101"];
    for base in 2..=36 {
        for literal in literals {
            let conversion = convert_number(literal, base, base).unwrap();
            assert_eq!(conversion.output, literal, "base {}", base);
        }
    }
    assert_eq!(convert("10101010101010101", "bin", "bin").unwrap().output, "10101010101010101");
    assert_eq!(convert("7FFFFFFF", "hex", "hex").unwrap().output, "7FFFFFFF");
    assert_eq!(convert("ZIK0ZJ", "36", "36").unwrap().output, "ZIK0ZJ");
    assert_eq!(convert("HELLO", "36", "36").unwrap().output, "HELLO");
}

#[test]
fn the_round_trip_drops_leading_zeros() {
    assert_eq!(convert("00FF", "hex", "hex").unwrap().output, "FF");
    assert_eq!(convert("0000", "hex", "hex").unwrap().output, "0");
    assert_eq!(convert("", "hex", "hex").unwrap().output, "0");
    assert_eq!(convert("0101", "bin", "bin").unwrap().output, "101");
}

#[test]
fn the_round_trip_through_decimal_gives_the_literal_back() {
    for (literal, base) in [("FF", "hex"), ("777", "oct"), ("101101", "bin"), ("HELLO", "36")] {
        let there = convert(literal, base, "dec").unwrap();
        let back = convert(&there.output, "dec", base).unwrap();
        assert_eq!(back.output, literal);
        assert_eq!(back.decimal, there.decimal);
    }
}
