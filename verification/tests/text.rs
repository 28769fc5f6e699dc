use toru::text::{
    chars_of, decimal, is_blank, is_purely_numeric, parse_bounded, parse_range, parse_u64,
    signed_decimal,
};

#[test]
fn decimal_writes_numbers_out() {
    assert_eq!(decimal(0), "0");
    assert_eq!(decimal(7), "7");
    assert_eq!(decimal(10), "10");
    assert_eq!(decimal(1234567890), "1234567890");
    assert_eq!(decimal(u64::MAX), "18446744073709551615");
}

#[test]
fn signed_decimal_writes_the_sign() {
    assert_eq!(signed_decimal(0), "0");
    assert_eq!(signed_decimal(-1), "-1");
    assert_eq!(signed_decimal(127), "127");
    assert_eq!(signed_decimal(i64::MIN), "-9223372036854775808");
}

#[test]
fn parse_reads_what_the_standard_library_reads() {
    for text in ["0", "7", "007", "+5", "18446744073709551615", "18446744073709551616", "",
        "+", "-0", "1_000", " 1", "1 ", "0x10", "12a", "++1", "٣", "1.5"] {
        assert_eq!(parse_u64(text), text.parse::<u64>().ok(), "{:?}", text);
        assert_eq!(
            parse_bounded(text, u16::MAX as u64),
            text.parse::<u16>().ok().map(u64::from),
            "{:?}",
            text
        );
    }
}

#[test]
fn parse_reads_back_what_decimal_writes() {
    for n in [0, 1, 9, 10, 99, 100, 65535, 65536, u64::MAX - 1, u64::MAX] {
        assert_eq!(parse_u64(&decimal(n)), Some(n));
    }
}

#[test]
fn parse_range_reads_a_part() {
    let chars = chars_of("ab12:34");
    assert_eq!(chars, vec!['a', 'b', '1', '2', ':', '3', '4']);
    assert_eq!(parse_range(&chars, 2, 4, 100), Some(12));
    assert_eq!(parse_range(&chars, 5, 7, 100), Some(34));
    assert_eq!(parse_range(&chars, 5, 7, 33), None);
    assert_eq!(parse_range(&chars, 2, 7, 10000), None);
    assert_eq!(parse_range(&chars, 3, 3, 100), None);
}

#[test]
fn purely_numeric_names_are_told() {
    assert!(is_purely_numeric("42"));
    assert!(is_purely_numeric(""));
    assert!(is_purely_numeric("٣٤"));
    assert!(is_purely_numeric("½"));
    assert!(!is_purely_numeric("4a"));
    assert!(!is_purely_numeric("+4"));
    assert!(!is_purely_numeric("groceries"));
    assert!(!is_purely_numeric("4 2"));
}

#[test]
fn blank_texts_are_told() {
    assert!(is_blank(""));
    assert!(is_blank(" \t\n\u{2003}"));
    assert!(!is_blank(" a "));
}
