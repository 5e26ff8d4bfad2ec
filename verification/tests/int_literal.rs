use compact_str::CompactString;
use yspace2::ws::bits::Bits;
use yspace2::ws::int_literal::ParseError::{self, IllegalUnderscore, InvalidDigit, InvalidRadix, NoDigits};
use yspace2::ws::int_literal::{IntLiteral, Sign, ToInteger};
use yspace2::ws::text::compact_len;

#[derive(Debug)]
enum SyntaxStyle {
    Erlang,
    C,
}

struct ParseTest {
    syntax: SyntaxStyle,
    string: &'static str,
    result: Result<(&'static str, &'static [u8]), ParseError>,
}

fn ok(syntax: SyntaxStyle, string: &'static str, int: &'static str, bits: &'static [u8]) -> ParseTest {
    ParseTest { syntax, string, result: Ok((int, bits)) }
}

fn err(syntax: SyntaxStyle, string: &'static str, e: ParseError) -> ParseTest {
    ParseTest { syntax, string, result: Err(e) }
}

fn bools(bits: &[u8]) -> Vec<bool> {
    bits.iter().map(|&b| b == 1).collect()
}

/// The decimal numeral of an integer written in decimal, as `Integer::parse`
/// reads it.
fn canonical_decimal(s: &str) -> String {
    s.parse::<i128>().unwrap().to_string()
}

fn check(test: &ParseTest, result: Result<IntLiteral, ParseError>) {
    match (&test.result, &result) {
        (Ok((int, bits)), Ok(lit)) => {
            assert_eq!(lit.bits().to_bools(), bools(bits), "bits of {} with {:?} syntax", test.string, test.syntax);
            assert_eq!(lit.string(), &Some(CompactString::from(test.string)), "string of {}", test.string);
            assert_eq!(lit.integer().to_decimal_string(), canonical_decimal(int), "int of {}", test.string);
        }
        (Err(e), Err(r)) => assert_eq!(e, r, "parse {} with {:?} syntax", test.string, test.syntax),
        _ => panic!("parse {} with {:?} syntax: expected {:?}, got {:?}", test.string, test.syntax, test.result, result),
    }
}

#[test]
fn parse() {
    for test in [
        ok(SyntaxStyle::Erlang, "0", "0", &[0, 0]),
        ok(SyntaxStyle::Erlang, "00", "00", &[0, 0]),
        ok(SyntaxStyle::Erlang, "000", "000", &[0, 0]),
        ok(SyntaxStyle::Erlang, "b#", "0", &[]),
        ok(SyntaxStyle::Erlang, "+b#", "0", &[0]),
        ok(SyntaxStyle::Erlang, "-b#", "0", &[1]),
        ok(SyntaxStyle::Erlang, "b#0", "0", &[0, 0]),
        ok(SyntaxStyle::Erlang, "+b#0", "0", &[0, 0]),
        ok(SyntaxStyle::Erlang, "-b#0", "0", &[1, 0]),
        ok(SyntaxStyle::Erlang, "42", "42", &[0, 1, 0, 1, 0, 1, 0]),
        ok(SyntaxStyle::Erlang, "16#123", "291", &[0, 0, 0, 0, 1, 0, 0, 1, 0, 0, 0, 1, 1]),
        ok(SyntaxStyle::Erlang, "16#dead_BEEF", "3735928559", &[0, 1, 1, 0, 1, 1, 1, 1, 0, 1, 0, 1, 0, 1, 1, 0, 1, 1, 0, 1, 1, 1, 1, 1, 0, 1, 1, 1, 0, 1, 1, 1, 1]),
        ok(SyntaxStyle::Erlang, "-60#100", "-3600", &[1, 1, 1, 1, 0, 0, 0, 0, 1, 0, 0, 0, 0]),
        err(SyntaxStyle::Erlang, "3#_0", IllegalUnderscore { offset: 2 }),
        err(SyntaxStyle::Erlang, "21#0_", IllegalUnderscore { offset: 4 }),
        err(SyntaxStyle::Erlang, "42#9__2", IllegalUnderscore { offset: 5 }),
        err(SyntaxStyle::Erlang, "b", InvalidDigit { ch: 'b', offset: 0 }),
        err(SyntaxStyle::Erlang, "B", InvalidDigit { ch: 'B', offset: 0 }),
        err(SyntaxStyle::Erlang, "o", InvalidDigit { ch: 'o', offset: 0 }),
        err(SyntaxStyle::Erlang, "O", InvalidDigit { ch: 'O', offset: 0 }),
        err(SyntaxStyle::Erlang, "x", InvalidDigit { ch: 'x', offset: 0 }),
        err(SyntaxStyle::Erlang, "X", InvalidDigit { ch: 'X', offset: 0 }),
        err(SyntaxStyle::Erlang, "#", InvalidRadix),
        err(SyntaxStyle::Erlang, "a#", InvalidRadix),
        err(SyntaxStyle::Erlang, "ab#", InvalidRadix),
        err(SyntaxStyle::Erlang, "abc#", InvalidDigit { ch: 'a', offset: 0 }),
        err(SyntaxStyle::Erlang, "0#", InvalidRadix),
        err(SyntaxStyle::Erlang, "1#", InvalidRadix),
        err(SyntaxStyle::Erlang, "63#", InvalidRadix),
        ok(SyntaxStyle::C, "0", "0", &[0, 0]),
        ok(SyntaxStyle::C, "00", "00", &[0, 0, 0, 0]),
        ok(SyntaxStyle::C, "000", "000", &[0, 0, 0, 0, 0, 0, 0]),
        ok(SyntaxStyle::C, "0755", "493", &[0, 1, 1, 1, 1, 0, 1, 1, 0, 1]),
        err(SyntaxStyle::C, "0b", NoDigits),
        err(SyntaxStyle::C, "0x", NoDigits),
        err(SyntaxStyle::C, "0a", InvalidDigit { ch: 'a', offset: 1 }),
    ] {
        let result = match test.syntax {
            SyntaxStyle::Erlang => IntLiteral::parse_erlang_style(test.string.into()),
            SyntaxStyle::C => IntLiteral::parse_c_style(test.string.into()),
        };
        check(&test, result);
    }
}

#[test]
fn parse_radix_reads_signed_digits() {
    let lit = IntLiteral::parse_radix("-1_0".into(), 3).unwrap();
    assert_eq!(lit.bits().to_bools(), bools(&[1, 1, 1]));
    assert_eq!(lit.integer().to_decimal_string(), "-3");
    assert_eq!(lit.sign(), Sign::Neg);
    let lit = IntLiteral::parse_radix("zZ".into(), 62).unwrap();
    // z = 61, Z = 35: 61 * 62 + 35 = 3817
    assert_eq!(lit.integer().to_decimal_string(), "3817");
    let lit = IntLiteral::parse_radix("zZ".into(), 36).unwrap();
    // case-insensitive: 35 * 36 + 35 = 1295
    assert_eq!(lit.integer().to_decimal_string(), "1295");
}

#[test]
fn parse_radix_errors() {
    assert_eq!(IntLiteral::parse_radix("12".into(), 63), Err(InvalidRadix));
    assert_eq!(IntLiteral::parse_radix("12".into(), 1), Err(InvalidRadix));
    assert_eq!(IntLiteral::parse_radix("+".into(), 10), Err(NoDigits));
    assert_eq!(IntLiteral::parse_radix("".into(), 10), Err(NoDigits));
    assert_eq!(IntLiteral::parse_radix("19".into(), 8), Err(InvalidDigit { ch: '9', offset: 1 }));
    assert_eq!(IntLiteral::parse_radix("1_".into(), 8), Err(IllegalUnderscore { offset: 1 }));
    assert_eq!(IntLiteral::parse_radix("0__1".into(), 8), Err(IllegalUnderscore { offset: 2 }));
}

#[test]
fn invalid_non_ascii_digit_is_decoded() {
    assert_eq!(
        IntLiteral::parse_erlang_style("12\u{e9}".into()),
        Err(InvalidDigit { ch: '\u{e9}', offset: 2 })
    );
}

#[test]
fn erlang_empty_and_hash_cases() {
    assert_eq!(IntLiteral::parse_erlang_style("".into()), Err(NoDigits));
    assert_eq!(IntLiteral::parse_erlang_style("-".into()), Err(NoDigits));
    assert_eq!(IntLiteral::parse_erlang_style("1#2".into()), Err(InvalidRadix));
    assert_eq!(IntLiteral::parse_erlang_style("2#12".into()), Err(InvalidDigit { ch: '2', offset: 3 }));
    // `12#` after digits: the `#` stands where a digit should.
    assert_eq!(IntLiteral::parse_erlang_style("123#".into()), Err(InvalidRadix));
    let lit = IntLiteral::parse_erlang_style("62#10".into()).unwrap();
    assert_eq!(lit.integer().to_decimal_string(), "62");
    assert_eq!(lit.bits().to_bools(), bools(&[0, 1, 1, 1, 1, 1, 0]));
    let lit = IntLiteral::parse_erlang_style("x#0f".into()).unwrap();
    assert_eq!(lit.bits().to_bools(), bools(&[0, 0, 0, 0, 0, 1, 1, 1, 1]));
}

#[test]
fn large_values_convert_exactly() {
    let lit = IntLiteral::parse_erlang_style("123456789012345678901234567890".into()).unwrap();
    assert_eq!(lit.integer().to_decimal_string(), "123456789012345678901234567890");
    let lit = IntLiteral::parse_c_style("-0x1_0000_0000_0000_0000".into()).unwrap();
    assert_eq!(lit.integer().to_decimal_string(), "-18446744073709551616");
    assert!(lit.integer().is_negative());
    assert_eq!(lit.bits().to_bools().len(), 1 + 17 * 4);
}

#[test]
fn bits_denote_parsed_value() {
    for s in ["42", "-60#100", "16#dead_BEEF", "0755", "-b#0", "+b#", "7#666"] {
        let lit = IntLiteral::parse_erlang_style(s.into()).unwrap();
        assert_eq!(lit.bits().to_int(), *lit.integer(), "{}", s);
    }
}

#[test]
fn to_integer_reads_bits() {
    let b = Bits::from_bools(&bools(&[1, 0, 1, 1]));
    assert_eq!(b.to_int().to_decimal_string(), "-3");
    assert_eq!(b.to_uint().to_decimal_string(), "11");
    assert_eq!(b.to_uint_unambiguous().unwrap().to_decimal_string(), "11");
    assert_eq!(b.sign(), Sign::Neg);
    let b = Bits::from_bools(&bools(&[0, 0, 1, 1]));
    assert_eq!(b.to_int().to_decimal_string(), "3");
    assert!(b.to_uint_unambiguous().is_none());
    assert_eq!(b.sign(), Sign::Pos);
    let b = Bits::from_bools(&[]);
    assert_eq!(b.to_int().to_decimal_string(), "0");
    assert_eq!(b.to_uint().to_decimal_string(), "0");
    assert_eq!(b.sign(), Sign::Empty);
    assert_eq!(Bits::from_bools(&[true]).to_int().to_decimal_string(), "0");
}

#[test]
fn display_of_literals() {
    let text = |bits: &[u8]| IntLiteral::from(Bits::from_bools(&bools(bits))).to_string();
    assert_eq!(text(&[1, 0]), "0");
    assert_eq!(text(&[0, 1, 1]), "3");
    assert_eq!(text(&[1, 1, 0, 1]), "-5");
    assert_eq!(text(&[0, 0, 1]), "b#01");
    assert_eq!(text(&[1, 0, 1]), "-b#01");
    assert_eq!(text(&[1]), "-b#");
    assert_eq!(text(&[0]), "+b#");
    let lit = IntLiteral::parse_erlang_style("16#dead_BEEF".into()).unwrap();
    assert_eq!(lit.to_string(), "16#dead_BEEF");
}

#[test]
fn from_bits_keeps_bits_and_value() {
    let lit = IntLiteral::from_bits(Bits::from_bools(&bools(&[1, 0, 0, 1, 0])));
    assert_eq!(lit.bits().to_bools(), bools(&[1, 0, 0, 1, 0]));
    assert_eq!(lit.string(), &None);
    assert_eq!(lit.integer().to_decimal_string(), "-2");
    assert_eq!(lit.sign(), Sign::Neg);
}

#[test]
fn displayed_literals_read_back() {
    let patterns: [&[u8]; 10] = [
        &[0], &[1], &[0, 0], &[0, 1], &[1, 1], &[0, 0, 1], &[1, 0, 0, 1], &[0, 1, 0, 1, 1], &[1, 1, 1, 1, 1, 1, 1, 1, 1, 1],
        &[0, 0, 0, 0],
    ];
    for bits in patterns {
        let lit = IntLiteral::from(Bits::from_bools(&bools(bits)));
        let text = lit.to_string();
        let back = IntLiteral::parse_erlang_style(text.as_str().into()).unwrap();
        assert_eq!(back.bits().to_bools(), bools(bits), "{}", text);
        assert_eq!(back.integer().to_decimal_string(), lit.integer().to_decimal_string(), "{}", text);
    }
    // A negative zero in two bits is written `0` and reads back without its sign.
    let lit = IntLiteral::from(Bits::from_bools(&bools(&[1, 0])));
    assert_eq!(lit.to_string(), "0");
    let back = IntLiteral::parse_erlang_style("0".into()).unwrap();
    assert_eq!(back.bits().to_bools(), bools(&[0, 0]));
}

fn same_literal(a: &Result<IntLiteral, ParseError>, b: &Result<IntLiteral, ParseError>) -> bool {
    match (a, b) {
        (Ok(x), Ok(y)) => x.bits() == y.bits() && x.integer() == y.integer(),
        (Err(e), Err(f)) => e == f,
        _ => false,
    }
}

#[test]
fn letters_are_digits_in_either_case() {
    let r = |s: &str, radix: u32| IntLiteral::parse_radix(s.into(), radix);
    assert!(same_literal(&r("DEAD", 16), &r("dead", 16)));
    assert!(same_literal(&r("-Zz", 36), &r("-zz", 36)));
    assert_eq!(r("Zz", 36).unwrap().integer().to_decimal_string(), "1295");
    assert!(same_literal(&IntLiteral::parse_c_style("0XFF".into()), &IntLiteral::parse_c_style("0xff".into())));
    assert!(same_literal(
        &IntLiteral::parse_erlang_style("16#BEEF".into()),
        &IntLiteral::parse_erlang_style("x#beef".into()),
    ));
    // Only the character reported for an invalid digit follows the case.
    assert_eq!(r("1G", 16).unwrap_err(), InvalidDigit { ch: 'G', offset: 1 });
    assert_eq!(r("1g", 16).unwrap_err(), InvalidDigit { ch: 'g', offset: 1 });
    // Above radix 36 case tells digits apart.
    assert_eq!(r("a", 40).unwrap().integer().to_decimal_string(), "36");
    assert_eq!(r("A", 40).unwrap().integer().to_decimal_string(), "10");
}

#[test]
fn single_underscores_only_separate() {
    let e = |s: &str| IntLiteral::parse_erlang_style(s.into());
    let c = |s: &str| IntLiteral::parse_c_style(s.into());
    assert!(same_literal(&e("1_000"), &e("1000")));
    assert!(same_literal(&e("-2#1_0_1"), &e("-2#101")));
    assert!(same_literal(&e("16#dead_BEEF"), &e("16#deadBEEF")));
    assert!(same_literal(&c("0x1_F"), &c("0x1F")));
    assert!(same_literal(&c("07_7"), &c("077")));
    assert!(same_literal(
        &IntLiteral::parse_radix("+1_2".into(), 3),
        &IntLiteral::parse_radix("+12".into(), 3),
    ));
    // A text that does not read still does not read.
    assert!(e("1_z").is_err() && e("1z").is_err());
}

#[test]
fn sign_bit_is_the_sign_written() {
    let e = |s: &str| IntLiteral::parse_erlang_style(s.into()).unwrap();
    assert_eq!(e("-0").sign(), Sign::Neg);
    assert_eq!(e("+5").sign(), Sign::Pos);
    assert_eq!(e("7").sign(), Sign::Pos);
    assert_eq!(e("b#").sign(), Sign::Empty);
    assert_eq!(e("-b#").sign(), Sign::Neg);
    assert_eq!(e("+b#").sign(), Sign::Pos);
    assert_eq!(e("-12").integer().to_decimal_string(), "-12");
    // Zero has one value whatever the sign written.
    assert_eq!(e("-0").integer(), e("0").integer());
    assert_eq!(e("-0").integer().to_decimal_string(), "0");
    assert!(!e("-0").integer().is_negative());
    assert_eq!(e("-0").integer().clone(), *e("+b#00").integer());
}

#[test]
fn every_bit_pattern_has_a_literal() {
    for bits in [vec![], vec![1], vec![0], vec![1, 0], vec![0, 0], vec![0, 0, 1, 1], vec![1, 0, 0, 0, 1]] {
        let text = if bits.is_empty() {
            "b#".to_string()
        } else {
            let sign = if bits[0] == 1 { "-" } else { "+" };
            let digits: String = bits[1..].iter().map(|&b| if b == 1 { '1' } else { '0' }).collect();
            format!("{sign}b#{digits}")
        };
        let lit = IntLiteral::parse_erlang_style(text.as_str().into()).unwrap();
        assert_eq!(lit.bits().to_bools(), bools(&bits), "{}", text);
        let from = IntLiteral::from_bits(Bits::from_bools(&bools(&bits)));
        assert_eq!(lit.integer(), from.integer(), "{}", text);
    }
}

#[test]
fn prefixes_name_radices() {
    let c = |s: &str| IntLiteral::parse_c_style(s.into());
    let e = |s: &str| IntLiteral::parse_erlang_style(s.into());
    let r = |s: &str, radix: u32| IntLiteral::parse_radix(s.into(), radix);
    assert!(same_literal(&c("-0x1F"), &r("-1F", 16)));
    assert!(same_literal(&c("0B101"), &r("101", 2)));
    assert!(same_literal(&c("017"), &r("17", 8)));
    assert!(same_literal(&c("+0o7_7"), &r("+7_7", 8)));
    // Faults are reported the prefix's length further on.
    assert_eq!(c("0x1G"), Err(InvalidDigit { ch: 'G', offset: 3 }));
    assert_eq!(r("1G", 16), Err(InvalidDigit { ch: 'G', offset: 1 }));
    assert_eq!(c("-0b1__0"), Err(IllegalUnderscore { offset: 5 }));
    assert_eq!(r("-1__0", 2), Err(IllegalUnderscore { offset: 3 }));
    assert_eq!(c("0x"), Err(NoDigits));
    // No leading zero: decimal.
    assert!(same_literal(&c("+12"), &r("+12", 10)));
    assert_eq!(c("1a"), r("1a", 10));
    assert!(same_literal(&e("-16#ff"), &r("-ff", 16)));
    assert!(same_literal(&e("40#Z"), &r("Z", 40)));
    assert!(same_literal(&e("9#88"), &r("88", 9)));
    assert!(e("2#12").is_err() && r("12", 2).is_err());
    // No `#`: decimal.
    assert_eq!(e("12a"), r("12a", 10));
    assert!(same_literal(&e("-7"), &r("-7", 10)));
}

#[test]
fn upper_case_reads_the_same() {
    let r = |s: &str, radix: u32| IntLiteral::parse_radix(s.into(), radix);
    assert!(same_literal(&r("beef", 16), &r("BEEF", 16)));
    assert!(same_literal(&IntLiteral::parse_c_style("0xab".into()), &IntLiteral::parse_c_style("0XAB".into())));
    assert_eq!(r("1z", 16), Err(InvalidDigit { ch: 'z', offset: 1 }));
    assert_eq!(r("1Z", 16), Err(InvalidDigit { ch: 'Z', offset: 1 }));
}

#[test]
fn no_bits_only_without_sign_and_digits() {
    let e = |s: &str| IntLiteral::parse_erlang_style(s.into()).unwrap();
    assert_eq!(e("b#").bits().len(), 0);
    assert_eq!(e("+b#").bits().len(), 1);
    assert_eq!(e("x#0").bits().len(), 5);
}

#[test]
fn text_length_in_bytes() {
    assert_eq!(compact_len(&CompactString::from("16#ff")), 5);
    assert_eq!(compact_len(&CompactString::from("1\u{e9}")), 3);
    assert_eq!(compact_len(&CompactString::from("")), 0);
}
