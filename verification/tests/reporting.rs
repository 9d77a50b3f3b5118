use base_converter::{
    convert, decimal_string, report, summary, to_dec_trace, to_other_trace, Conversion,
    ConvertError,
};

#[test]
fn decimal_string_writes_integers_as_the_standard_library_does() {
    for value in [0, 1, 9, 10, 99, 100, 255, 1000, 2147483647, -1, -10, -255, -2147483648] {
        assert_eq!(decimal_string(value), value.to_string());
    }
}

#[test]
fn summary_to_decimal_stops_at_the_value() {
    let conversion = convert("FF", "hex", "dec").unwrap();
    assert_eq!(summary("FF", &conversion), "FF (Base 16) => 255");
}

#[test]
fn summary_to_another_base_shows_the_output() {
    let conversion = convert("255", "dec", "hex").unwrap();
    assert_eq!(summary("255", &conversion), "255 (Base 10) => 255 => FF (Base 16)");
    let zero = convert("0", "dec", "hex").unwrap();
    assert_eq!(summary("0", &zero), "0 (Base 10) => 0 => 0 (Base 16)");
}

#[test]
fn summary_writes_whatever_the_conversion_holds() {
    let conversion =
        Conversion { in_base: -3, out_base: 40, decimal: -17, output: "x".to_string() };
    assert_eq!(summary("in", &conversion), "in (Base -3) => -17 => x (Base 40)");
}

#[test]
fn to_dec_trace_of_ff() {
    let expected = "Converting FF (Base 16) to decimal\n\
        \u{1b}[30;1mFF = 15*16^0 = 15\n\
        \u{1b}[0m\u{1b}[30;1m   + 15*16^1 = 240\n\
        \u{1b}[0m= 255 (Base 10)\n\n";
    assert_eq!(to_dec_trace(&vec![15, 15], 16), expected);
}

#[test]
fn to_dec_trace_of_a_longer_literal() {
    let expected = "Converting 1101 (Base 2) to decimal\n\
        \u{1b}[30;1m1101 = 1*2^0 = 1\n\
        \u{1b}[0m\u{1b}[30;1m     + 0*2^1 = 0\n\
        \u{1b}[0m\u{1b}[30;1m     + 1*2^2 = 4\n\
        \u{1b}[0m\u{1b}[30;1m     + 1*2^3 = 8\n\
        \u{1b}[0m= 13 (Base 10)\n\n";
    assert_eq!(to_dec_trace(&vec![1, 0, 1, 1], 2), expected);
}

#[test]
fn to_dec_trace_of_no_digits() {
    assert_eq!(to_dec_trace(&vec![], 16), "Converting  (Base 16) to decimal\n= 0 (Base 10)\n\n");
}

#[test]
fn to_dec_trace_writes_a_zero_term_where_the_weight_is_too_large() {
    let mut digits = vec![1];
    digits.extend(vec![0; 32]);
    let trace = to_dec_trace(&digits, 2);
    assert!(trace.contains("+ 0*2^30 = 0\n"));
    assert!(trace.contains("+ 0*2^31 = 0\n"));
    assert!(trace.contains("+ 0*2^32 = 0\n"));
    assert!(trace.ends_with("= 1 (Base 10)\n\n"));
}

#[test]
fn to_other_trace_of_255() {
    let expected = "Converting 255 to Base 16\n\
        \u{1b}[30;1m255 / 16 = 15 Rest 15\n\
        \u{1b}[0m\u{1b}[30;1m15  / 16 = 0  Rest 15\n\
        \u{1b}[0m= FF (Base 16)\n\n";
    assert_eq!(to_other_trace(255, 16), expected);
}

#[test]
fn to_other_trace_pads_to_the_first_line() {
    let expected = "Converting 1000 to Base 10\n\
        \u{1b}[30;1m1000 / 10 = 100 Rest 0\n\
        \u{1b}[0m\u{1b}[30;1m100  / 10 = 10  Rest 0\n\
        \u{1b}[0m\u{1b}[30;1m10   / 10 = 1   Rest 0\n\
        \u{1b}[0m\u{1b}[30;1m1    / 10 = 0   Rest 1\n\
        \u{1b}[0m= 1000 (Base 10)\n\n";
    assert_eq!(to_other_trace(1000, 10), expected);
}

#[test]
fn to_other_trace_of_zero_has_no_division() {
    assert_eq!(to_other_trace(0, 16), "Converting 0 to Base 16\n= 0 (Base 16)\n\n");
}

#[test]
fn report_is_the_summary_line_alone_when_not_verbose() {
    assert_eq!(report("FF", 16, 10, false), Ok("FF (Base 16) => 255\n".to_string()));
    assert_eq!(
        report("255", 10, 16, false),
        Ok("255 (Base 10) => 255 => FF (Base 16)\n".to_string())
    );
}

#[test]
fn verbose_report_to_decimal_has_one_derivation() {
    let expected = format!("{}FF (Base 16) => 255\n", to_dec_trace(&vec![15, 15], 16));
    assert_eq!(report("FF", 16, 10, true), Ok(expected));
}

#[test]
fn verbose_report_to_another_base_has_both_derivations() {
    let expected = format!(
        "{}{}255 (Base 10) => 255 => FF (Base 16)\n",
        to_dec_trace(&vec![5, 5, 2], 10),
        to_other_trace(255, 16)
    );
    assert_eq!(report("255", 10, 16, true), Ok(expected));
}

#[test]
fn report_rejects_what_cannot_be_converted() {
    assert_eq!(report("Z", 16, 10, true), Err(ConvertError::InvalidDigit { position: 0 }));
    assert_eq!(report("80000000", 16, 10, false), Err(ConvertError::Overflow));
}
