use kps_ce::error::{CeError, LineFault};
use kps_ce::item::ItemWithSetup;
use kps_ce::decimal::DecimalFault;
use kps_ce::parse::{
    parse_number, parse_numbers, read_digits, space_len, split_fields, split_lines,
};
use kps_ce::read_kps_instance;
use kps_ce::selection::Quantile;

fn fields(it: &ItemWithSetup) -> (usize, usize, usize, usize, usize) {
    (it.item.id, it.item.value, it.item.weight, it.setup_cost, it.setup_time)
}

#[test]
fn from_string_reads_value_weight_and_setup() {
    let it = ItemWithSetup::from_string(7, String::from("10 20 99 100")).unwrap();
    assert_eq!(fields(&it), (7, 10, 20, 99, 100));
}

#[test]
fn from_string_takes_any_white_space_between_fields() {
    let it = ItemWithSetup::from_string(0, String::from("  1\t2   3 \t 4 \r")).unwrap();
    assert_eq!(fields(&it), (0, 1, 2, 3, 4));
}

#[test]
fn from_string_takes_a_plus_sign_and_leading_zeros() {
    let it = ItemWithSetup::from_string(0, String::from("+1 002 0 +00")).unwrap();
    assert_eq!(fields(&it), (0, 1, 2, 0, 0));
}

#[test]
fn from_string_counts_the_fields() {
    assert_eq!(
        ItemWithSetup::from_string(0, String::from("1 2 3")).err(),
        Some(LineFault::FieldCount { found: 3 })
    );
    assert_eq!(
        ItemWithSetup::from_string(0, String::from("1 2 3 4 5")).err(),
        Some(LineFault::FieldCount { found: 5 })
    );
    assert_eq!(
        ItemWithSetup::from_string(0, String::from("")).err(),
        Some(LineFault::FieldCount { found: 0 })
    );
    assert_eq!(
        ItemWithSetup::from_string(0, String::from("   ")).err(),
        Some(LineFault::FieldCount { found: 0 })
    );
}

#[test]
fn from_string_names_the_first_field_that_is_no_number() {
    assert_eq!(
        ItemWithSetup::from_string(0, String::from("1 x 3 y")).err(),
        Some(LineFault::NotANumber { field: 1 })
    );
    assert_eq!(
        ItemWithSetup::from_string(0, String::from("-1 2 3 4")).err(),
        Some(LineFault::NotANumber { field: 0 })
    );
    assert_eq!(
        ItemWithSetup::from_string(0, String::from("1 2 3 4.5")).err(),
        Some(LineFault::NotANumber { field: 3 })
    );
    // A field that is no number counts before the number of fields does.
    assert_eq!(
        ItemWithSetup::from_string(0, String::from("1 2 zwei")).err(),
        Some(LineFault::NotANumber { field: 2 })
    );
    assert_eq!(
        ItemWithSetup::from_string(0, String::from("1 2 3 4 \u{e9}")).err(),
        Some(LineFault::NotANumber { field: 4 })
    );
}

#[test]
fn from_line_reads_bytes() {
    let it = ItemWithSetup::from_line(3, b"5 6 7 8").unwrap();
    assert_eq!(fields(&it), (3, 5, 6, 7, 8));
}

#[test]
fn parse_number_reads_decimal_digits() {
    assert_eq!(parse_number(&b"0".to_vec()), Some(0));
    assert_eq!(parse_number(&b"42".to_vec()), Some(42));
    assert_eq!(parse_number(&b"+42".to_vec()), Some(42));
    assert_eq!(parse_number(&b"0042".to_vec()), Some(42));
    assert_eq!(parse_number(&b"1234567890".to_vec()), Some(1234567890));
}

#[test]
fn parse_number_refuses_what_is_no_number() {
    assert_eq!(parse_number(&b"".to_vec()), None);
    assert_eq!(parse_number(&b"+".to_vec()), None);
    assert_eq!(parse_number(&b"++1".to_vec()), None);
    assert_eq!(parse_number(&b"1+".to_vec()), None);
    assert_eq!(parse_number(&b"-1".to_vec()), None);
    assert_eq!(parse_number(&b"12a".to_vec()), None);
    assert_eq!(parse_number(&b"a12".to_vec()), None);
    assert_eq!(parse_number(&b"1 2".to_vec()), None);
    assert_eq!(parse_number(&b"1.0".to_vec()), None);
}

#[test]
fn parse_number_knows_the_largest_number() {
    let largest = format!("{}", usize::MAX);
    assert_eq!(parse_number(&largest.clone().into_bytes()), Some(usize::MAX));
    let beyond = format!("{}", usize::MAX as u128 + 1);
    assert_eq!(parse_number(&beyond.into_bytes()), None);
    let tenfold = format!("{}0", largest);
    assert_eq!(parse_number(&tenfold.into_bytes()), None);
    assert_eq!(parse_number(&format!("{}x", largest).into_bytes()), None);
}

#[test]
fn parse_numbers_wants_a_count() {
    assert_eq!(parse_numbers(b"1 2", 2), Ok(vec![1, 2]));
    assert_eq!(parse_numbers(b"1 2", 3), Err(LineFault::FieldCount { found: 2 }));
    assert_eq!(parse_numbers(b"", 0), Ok(vec![]));
    assert_eq!(parse_numbers(b"1 b", 1), Err(LineFault::NotANumber { field: 1 }));
}

#[test]
fn split_cuts_lines_at_line_feeds() {
    let lines = split_lines(b"ab\n\ncd\n");
    assert_eq!(lines, vec![b"ab".to_vec(), b"".to_vec(), b"cd".to_vec()]);
    let lines = split_lines(b"ab\ncd");
    assert_eq!(lines, vec![b"ab".to_vec(), b"cd".to_vec()]);
    assert_eq!(split_lines(b""), Vec::<Vec<u8>>::new());
    assert_eq!(split_lines(b"\n"), vec![b"".to_vec()]);
    // Only a line feed ends a line.
    let lines = split_lines("a\u{2028}b\rc\n".as_bytes());
    assert_eq!(lines, vec!["a\u{2028}b\rc".as_bytes().to_vec()]);
}

#[test]
fn split_cuts_fields_at_white_space() {
    let parts = split_fields(b"  ab \t cd\r\n e ");
    assert_eq!(parts, vec![b"ab".to_vec(), b"cd".to_vec(), b"e".to_vec()]);
    assert_eq!(split_fields(b" \t "), Vec::<Vec<u8>>::new());
    assert_eq!(split_fields(b"x"), vec![b"x".to_vec()]);
    assert_eq!(split_fields(b""), Vec::<Vec<u8>>::new());
}

/// Every character with the property White_Space.
fn white_space() -> Vec<char> {
    let mut all: Vec<char> = vec![
        '\u{9}', '\u{a}', '\u{b}', '\u{c}', '\u{d}', '\u{20}', '\u{85}', '\u{a0}', '\u{1680}',
        '\u{2028}', '\u{2029}', '\u{202f}', '\u{205f}', '\u{3000}',
    ];
    for code in 0x2000..=0x200au32 {
        all.push(char::from_u32(code).unwrap());
    }
    all
}

#[test]
fn split_cuts_fields_at_every_white_space_character() {
    for space in white_space() {
        assert!(space.is_whitespace());
        let line = format!("12{}34{}{}5", space, space, space);
        assert_eq!(
            split_fields(line.as_bytes()),
            vec![b"12".to_vec(), b"34".to_vec(), b"5".to_vec()],
            "{:?}",
            space
        );
        let only = format!("{}", space);
        assert_eq!(space_len(only.as_bytes(), 0), space.len_utf8());
        assert_eq!(split_fields(only.as_bytes()), Vec::<Vec<u8>>::new());
    }
}

#[test]
fn split_agrees_with_the_white_space_of_the_language() {
    // Every character of the first planes, between two digits.
    for code in 0..0x3100u32 {
        if let Some(c) = char::from_u32(code) {
            let line = format!("1{}2", c);
            let expected: Vec<Vec<u8>> =
                line.split_whitespace().map(|part| part.as_bytes().to_vec()).collect();
            assert_eq!(split_fields(line.as_bytes()), expected, "{:?}", c);
        }
    }
}

#[test]
fn space_len_is_zero_where_no_white_space_begins() {
    assert_eq!(space_len(b"a b", 0), 0);
    assert_eq!(space_len(b"a b", 1), 1);
    assert_eq!(space_len(b"a b", 3), 0);
    assert_eq!(space_len(b"a b", 99), 0);
    // U+200B, zero width space, is no white space; nor is a sequence cut short.
    assert_eq!(space_len("\u{200b}".as_bytes(), 0), 0);
    assert_eq!(space_len(&[0xC2], 0), 0);
    assert_eq!(space_len(&[0xE2, 0x80], 0), 0);
    assert_eq!(space_len(&[0xC2, 0xA0], 1), 0);
}

#[test]
fn from_string_takes_white_space_beyond_ascii() {
    let it = ItemWithSetup::from_string(0, String::from("1\u{a0}2 3 4")).unwrap();
    assert_eq!(fields(&it), (0, 1, 2, 3, 4));
    let line = String::from("\u{3000}10\u{2003}20\u{85}30\u{1680}40\u{205f}");
    let it = ItemWithSetup::from_string(5, line).unwrap();
    assert_eq!(fields(&it), (5, 10, 20, 30, 40));
    let it = ItemWithSetup::from_line(0, &[49, 194, 160, 50, 32, 51, 32, 52]).unwrap();
    assert_eq!(fields(&it), (0, 1, 2, 3, 4));
}

#[test]
fn read_instance_takes_white_space_beyond_ascii() {
    let kps = read_kps_instance("100\n1\u{a0}2 3 4\n5\u{2009}6\u{202f}7\u{2029}8\n").unwrap();
    assert_eq!(kps.capacity, 100);
    assert_eq!(kps.num_items(), 2);
    assert_eq!(fields(&kps.items[0]), (0, 1, 2, 3, 4));
    assert_eq!(fields(&kps.items[1]), (1, 5, 6, 7, 8));
    let kps = read_kps_instance("\u{a0}100\u{a0}\n").unwrap();
    assert_eq!(kps.capacity, 100);
}

#[test]
fn read_instance_with_two_items() {
    let kps = read_kps_instance("100\n10 5 0 0\n30 10 5 1\n").unwrap();
    assert_eq!(kps.capacity, 100);
    assert_eq!(kps.num_items(), 2);
    assert_eq!(fields(&kps.items[0]), (0, 10, 5, 0, 0));
    assert_eq!(fields(&kps.items[1]), (1, 30, 10, 5, 1));
    assert_eq!(kps.lower_bounds, vec![Some(1), Some(1)]);
}

#[test]
fn read_instance_without_final_line_feed() {
    let kps = read_kps_instance("7\n1 2 3 4").unwrap();
    assert_eq!(kps.capacity, 7);
    assert_eq!(kps.num_items(), 1);
    assert_eq!(fields(&kps.items[0]), (0, 1, 2, 3, 4));
    assert_eq!(kps.lower_bounds, vec![None]);
}

#[test]
fn read_instance_with_carriage_returns() {
    let kps = read_kps_instance("50\r\n4 2 1 0\r\n6 3 0 0\r\n").unwrap();
    assert_eq!(kps.capacity, 50);
    assert_eq!(kps.num_items(), 2);
    assert_eq!(fields(&kps.items[1]), (1, 6, 3, 0, 0));
}

#[test]
fn read_instance_without_items() {
    let kps = read_kps_instance("12\n").unwrap();
    assert_eq!(kps.capacity, 12);
    assert_eq!(kps.num_items(), 0);
    let kps = read_kps_instance("12").unwrap();
    assert_eq!(kps.num_items(), 0);
}

#[test]
fn read_instance_refuses_an_empty_text() {
    assert_eq!(
        read_kps_instance("").err(),
        Some(CeError::Input { line: 0, fault: LineFault::Missing })
    );
}

#[test]
fn read_instance_refuses_a_bad_capacity() {
    assert_eq!(
        read_kps_instance("ten\n1 2 3 4\n").err(),
        Some(CeError::Input { line: 0, fault: LineFault::NotANumber { field: 0 } })
    );
    assert_eq!(
        read_kps_instance("10 20\n1 2 3 4\n").err(),
        Some(CeError::Input { line: 0, fault: LineFault::FieldCount { found: 2 } })
    );
    assert_eq!(
        read_kps_instance("\n1 2 3 4\n").err(),
        Some(CeError::Input { line: 0, fault: LineFault::FieldCount { found: 0 } })
    );
}

#[test]
fn read_instance_names_the_first_faulty_line() {
    assert_eq!(
        read_kps_instance("10\n1 2 3 4\n1 2 3\n1 x 3 4\n").err(),
        Some(CeError::Input { line: 2, fault: LineFault::FieldCount { found: 3 } })
    );
    assert_eq!(
        read_kps_instance("10\n1 2 3 4\n1 2 3 4\n1 2 3 four\n").err(),
        Some(CeError::Input { line: 3, fault: LineFault::NotANumber { field: 3 } })
    );
}

#[test]
fn read_instance_refuses_a_blank_line() {
    assert_eq!(
        read_kps_instance("10\n1 2 3 4\n\n5 6 7 8\n").err(),
        Some(CeError::Input { line: 2, fault: LineFault::FieldCount { found: 0 } })
    );
}

const SCALE: u64 = 10_000_000_000_000_000_000;

fn ratio(numerator: u64) -> Result<Quantile, DecimalFault> {
    Ok(Quantile { numerator, denominator: SCALE })
}

#[test]
fn quantile_from_decimal_reads_the_exact_ratio() {
    assert_eq!(kps_ce::decimal::QUANTILE_SCALE, SCALE);
    assert_eq!(Quantile::from_decimal("0.25"), ratio(SCALE / 4));
    assert_eq!(Quantile::from_decimal("0.1"), ratio(SCALE / 10));
    assert_eq!(Quantile::from_decimal(".5"), ratio(SCALE / 2));
    assert_eq!(Quantile::from_decimal("0.050"), ratio(SCALE / 20));
    assert_eq!(Quantile::from_decimal("1"), ratio(SCALE));
    assert_eq!(Quantile::from_decimal("1."), ratio(SCALE));
    assert_eq!(Quantile::from_decimal("1.5"), ratio(SCALE / 2 * 3));
    assert_eq!(Quantile::from_decimal("0"), ratio(0));
    assert_eq!(Quantile::from_decimal("000.0000"), ratio(0));
    assert_eq!(Quantile::from_decimal("0.0000000000000000001"), ratio(1));
    assert_eq!(Quantile::from_decimal("0.9999999999999999999"), ratio(SCALE - 1));
}

#[test]
fn quantile_from_decimal_takes_a_sign() {
    assert_eq!(Quantile::from_decimal("+0.5"), ratio(SCALE / 2));
    assert_eq!(Quantile::from_decimal("+.5"), ratio(SCALE / 2));
    assert_eq!(Quantile::from_decimal("-0"), ratio(0));
    assert_eq!(Quantile::from_decimal("-0.000"), ratio(0));
    assert_eq!(Quantile::from_decimal("-0e5"), ratio(0));
    assert_eq!(Quantile::from_decimal("-0.5"), Err(DecimalFault::OutOfRange));
    assert_eq!(Quantile::from_decimal("-1e-30"), Err(DecimalFault::OutOfRange));
}

#[test]
fn quantile_from_decimal_takes_an_exponent() {
    assert_eq!(Quantile::from_decimal("5e-1"), ratio(SCALE / 2));
    assert_eq!(Quantile::from_decimal("5E-1"), ratio(SCALE / 2));
    assert_eq!(Quantile::from_decimal("25e-2"), ratio(SCALE / 4));
    assert_eq!(Quantile::from_decimal("0.025e1"), ratio(SCALE / 4));
    assert_eq!(Quantile::from_decimal("0.025e+1"), ratio(SCALE / 4));
    assert_eq!(Quantile::from_decimal("0.0025E02"), ratio(SCALE / 4));
    assert_eq!(Quantile::from_decimal("2.5e-1"), ratio(SCALE / 4));
    assert_eq!(Quantile::from_decimal(".1e0"), ratio(SCALE / 10));
    assert_eq!(Quantile::from_decimal("1.e-1"), ratio(SCALE / 10));
    assert_eq!(Quantile::from_decimal("1e-19"), ratio(1));
    assert_eq!(Quantile::from_decimal("1e0"), ratio(SCALE));
    assert_eq!(Quantile::from_decimal("0e99999999999999999999999999999999999999999999"), ratio(0));
    assert_eq!(Quantile::from_decimal("0.0e-99999999999999999999999999999999999999999"), ratio(0));
}

#[test]
fn quantile_from_decimal_rounds_further_places_up() {
    // Twenty-three places.
    assert_eq!(Quantile::from_decimal("0.10000000000000000000000"), ratio(SCALE / 10));
    assert_eq!(
        Quantile::from_decimal("0.33333333333333333333333"),
        ratio(3_333_333_333_333_333_334)
    );
    assert_eq!(Quantile::from_decimal("0.00000000000000000001"), ratio(1));
    assert_eq!(Quantile::from_decimal("1e-30"), ratio(1));
    assert_eq!(Quantile::from_decimal("1e-99999999999999999999999999999999999999999"), ratio(1));
    assert_eq!(Quantile::from_decimal("0.99999999999999999999999"), ratio(SCALE));
    assert_eq!(Quantile::from_decimal("123456789e-19"), ratio(123_456_789));
    assert_eq!(Quantile::from_decimal("123456789e-20"), ratio(12_345_679));
    assert_eq!(Quantile::from_decimal("123456780e-20"), ratio(12_345_678));
    assert_eq!(Quantile::from_decimal("123456789e-27"), ratio(2));
    assert_eq!(Quantile::from_decimal("123456789e-28"), ratio(1));
}

#[test]
fn quantile_from_decimal_refuses_what_is_no_number() {
    for text in [
        "", ".", "..", "1.2.3", "0,5", "0.5 ", " 0.5", "half", "+", "-", "+.", "e5", ".e5", "1e",
        "1e+", "1e-", "1e5.0", "1e 5", "++1", "1_000", "0x10", "1f", "in", "infinit", "nano",
        "0.5\u{a0}",
    ] {
        assert_eq!(Quantile::from_decimal(text), Err(DecimalFault::NotANumber), "{:?}", text);
        assert!(text.parse::<f64>().is_err(), "{:?}", text);
    }
}

#[test]
fn quantile_from_decimal_refuses_numbers_beyond_its_range() {
    for text in [
        "2", "1.9", "18.5", "1e30", "1e99999999999999999999999999999999999999999999", "-0.5",
        "-1", "inf", "+inf", "-inf", "Infinity", "INF", "nan", "NaN", "-nan",
        "18446744073709551616",
    ] {
        assert_eq!(Quantile::from_decimal(text), Err(DecimalFault::OutOfRange), "{:?}", text);
        assert!(text.parse::<f64>().is_ok(), "{:?}", text);
    }
    // The largest ratio that fits.
    assert_eq!(Quantile::from_decimal("1.8446744073709551615"), ratio(u64::MAX));
    assert_eq!(
        Quantile::from_decimal("1.8446744073709551616"),
        Err(DecimalFault::OutOfRange)
    );
    assert_eq!(
        Quantile::from_decimal("1.84467440737095516150000001"),
        Err(DecimalFault::OutOfRange)
    );
}

#[test]
fn quantile_from_decimal_reads_what_the_language_reads() {
    for text in ["0.5", "+0.5", "5e-1", "0.25", ".125", "1e-3", "0.0001220703125", "9e-1"] {
        let read = Quantile::from_decimal(text).unwrap();
        let value = read.numerator as f64 / read.denominator as f64;
        assert_eq!(value, text.parse::<f64>().unwrap(), "{:?}", text);
        assert!(read.is_valid());
    }
}

#[test]
fn quantile_from_decimal_gives_valid_quantiles_inside_the_unit_interval() {
    assert!(Quantile::from_decimal("0.1").unwrap().is_valid());
    assert!(Quantile::from_decimal("0.999").unwrap().is_valid());
    assert!(Quantile::from_decimal("1e-25").unwrap().is_valid());
    assert!(!Quantile::from_decimal("0.0").unwrap().is_valid());
    assert!(!Quantile::from_decimal("1.0").unwrap().is_valid());
    assert!(!Quantile::from_decimal("1.5").unwrap().is_valid());
}

#[test]
fn read_digits_reads_from_a_position() {
    assert_eq!(read_digits(&b"x123".to_vec(), 1), Some(123));
    assert_eq!(read_digits(&b"123".to_vec(), 0), Some(123));
    assert_eq!(read_digits(&b"123".to_vec(), 3), None);
    assert_eq!(read_digits(&b"18446744073709551615".to_vec(), 0), Some(u64::MAX));
    assert_eq!(read_digits(&b"18446744073709551616".to_vec(), 0), None);
}
