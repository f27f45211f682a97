use format_num_pattern::codec::{clean_num, parsed_value, unmap_num};
use format_num_pattern::{
    parse_format, parse_sym, NumberFmtError, NumberFormat, NumberSymbols, ParseNumber,
};

fn unmap_with(text: &str, pattern: &str, sym: NumberSymbols) -> Result<String, NumberFmtError> {
    let format = NumberFormat::news(pattern, sym).unwrap();
    let mut out = String::new();
    unmap_num(text, &format, format.sym(), &mut out).map(|_| out)
}

fn unmap(text: &str, pattern: &str) -> Result<String, NumberFmtError> {
    unmap_with(text, pattern, NumberSymbols::new())
}

fn clean(text: &str, sym: &NumberSymbols) -> String {
    let mut out = String::new();
    assert_eq!(clean_num(text, sym, &mut out), Ok(()));
    out
}

#[test]
fn digits_and_blanks_are_read() {
    assert_eq!(unmap("0012", "0000").unwrap(), "0012");
    assert_eq!(unmap("  12", "9999").unwrap(), "12");
    assert_eq!(unmap("  12", "####").unwrap(), "12");
    assert_eq!(unmap(" -12", "####").unwrap(), "-12");
    assert_eq!(unmap("1.25 ", "0.999").unwrap(), "1.25");
}

#[test]
fn digit_tokens_refuse_other_characters() {
    assert_eq!(unmap(" 012", "0000"), Err(NumberFmtError::ParseInvalidDigit));
    assert_eq!(unmap("x", "9"), Err(NumberFmtError::ParseInvalidDigit));
    assert_eq!(unmap("-", "9"), Err(NumberFmtError::ParseInvalidDigit));
    assert_eq!(unmap("x", "#"), Err(NumberFmtError::ParseInvalidDigit));
    assert_eq!(unmap("1. ", "0.0"), Err(NumberFmtError::ParseInvalidDigit));
    assert_eq!(unmap("1. ", "0.#"), Err(NumberFmtError::ParseInvalidDigit));
    assert_eq!(unmap("1.x", "0.9"), Err(NumberFmtError::ParseInvalidDigit));
    assert_eq!(unmap("1ex", "0e0"), Err(NumberFmtError::ParseInvalidDigit));
    assert_eq!(unmap("1e-", "0e0"), Err(NumberFmtError::ParseInvalidDigit));
    assert_eq!(unmap("1ex", "0e9"), Err(NumberFmtError::ParseInvalidDigit));
    assert_eq!(unmap("1ex", "0e#"), Err(NumberFmtError::ParseInvalidDigit));
}

#[test]
fn sign_tokens_read_the_glyphs() {
    assert_eq!(unmap("-12", "-00").unwrap(), "-12");
    assert_eq!(unmap(" 12", "-00").unwrap(), "12");
    assert_eq!(unmap("+12", "-00"), Err(NumberFmtError::ParseInvalidSign));
    assert_eq!(unmap("-12", "+00").unwrap(), "-12");
    assert_eq!(unmap("+12", "+00").unwrap(), "+12");
    assert_eq!(unmap(" 12", "+00"), Err(NumberFmtError::ParseInvalidSign));
    let mut sym = NumberSymbols::new();
    sym.negative_sym = '−';
    sym.positive_sym = '*';
    assert_eq!(unmap_with("−12", "-00", sym).unwrap(), "-12");
    assert_eq!(unmap_with("*12", "-00", sym).unwrap(), "12");
    assert_eq!(unmap_with("-12", "-00", sym), Err(NumberFmtError::ParseInvalidSign));
    assert_eq!(unmap_with("−12", "#00", sym).unwrap(), "-12");
    assert_eq!(unmap_with("*12", "#00", sym).unwrap(), "12");
}

#[test]
fn decimal_separator_is_read_as_a_point() {
    assert_eq!(unmap("1.5", "0.0").unwrap(), "1.5");
    assert_eq!(unmap("1  ", "0.9").unwrap(), "1");
    assert_eq!(unmap("1.", "0:").unwrap(), "1.");
    assert_eq!(unmap("1 ", "0:"), Err(NumberFmtError::ParseInvalidDecimalSep));
    assert_eq!(unmap("1,5", "0.0"), Err(NumberFmtError::ParseInvalidDecimalSep));
    let sym = NumberSymbols::numeric_from(",", ".");
    assert_eq!(unmap_with("1.234,5", "#,##0.0", sym).unwrap(), "1234.5");
    assert_eq!(
        unmap_with("1.234.5", "#,##0.0", sym),
        Err(NumberFmtError::ParseInvalidDecimalSep)
    );
}

#[test]
fn grouping_separator_is_read_or_holds_the_sign() {
    assert_eq!(unmap("1,234", "#,##0").unwrap(), "1234");
    assert_eq!(unmap("  234", "#,##0").unwrap(), "234");
    assert_eq!(unmap(" -234", "#,##0").unwrap(), "-234");
    assert_eq!(unmap("1.234", "#,##0"), Err(NumberFmtError::ParseInvalidGroupingSep));
    let mut sym = NumberSymbols::new();
    sym.positive_sym = '+';
    assert_eq!(unmap_with(" +234", "#,##0", sym).unwrap(), "234");
}

#[test]
fn grouping_token_takes_no_character_without_a_symbol() {
    let mut sym = NumberSymbols::new();
    sym.decimal_grp = None;
    assert_eq!(unmap_with("1234", "#,##0", sym).unwrap(), "1234");
    assert_eq!(unmap_with("-234", "#,##0", sym).unwrap(), "-234");
    assert_eq!(
        unmap_with("1,234", "#,##0", sym),
        Err(NumberFmtError::ParseInvalidDigit)
    );
}

#[test]
fn exponent_is_read_behind_its_marker() {
    assert_eq!(unmap("1.5e7  ", "0.0e###").unwrap(), "1.5e7");
    assert_eq!(unmap("1.5e-17", "0.0e###").unwrap(), "1.5e-17");
    assert_eq!(unmap("1.5E007", "0.0E000").unwrap(), "1.5e007");
    assert_eq!(unmap("1.5    ", "0.0e###").unwrap(), "1.5");
    assert_eq!(unmap("1.5x7  ", "0.0e###"), Err(NumberFmtError::ParseInvalidExp));
    assert_eq!(unmap("1.5e7  ", "0.0E###"), Err(NumberFmtError::ParseInvalidExp));
    assert_eq!(unmap("1.5 -7 ", "0.0e###").unwrap(), "1.5e-7");
}

#[test]
fn exponent_sign_tokens_read_the_glyphs() {
    assert_eq!(unmap("1e-7", "0e-0").unwrap(), "1e-7");
    assert_eq!(unmap("1e+7", "0e-0").unwrap(), "1e7");
    assert_eq!(unmap("1e 7", "0e-0").unwrap(), "1e7");
    assert_eq!(unmap("1ex7", "0e-0"), Err(NumberFmtError::ParseInvalidExpSign));
    assert_eq!(unmap("1e-7", "0e+0").unwrap(), "1e-7");
    assert_eq!(unmap("1e+7", "0e+0").unwrap(), "1e7");
    assert_eq!(unmap("1e 7", "0e+0"), Err(NumberFmtError::ParseInvalidExpSign));
}

#[test]
fn literals_must_match() {
    assert_eq!(unmap("a12b", "\\a00\\b").unwrap(), "12");
    assert_eq!(unmap("a12c", "\\a00\\b"), Err(NumberFmtError::ParseInvalidSeparator));
    assert_eq!(unmap("1 2", "0 0").unwrap(), "12");
    assert_eq!(unmap("1_2", "0 0"), Err(NumberFmtError::ParseInvalidSeparator));
    assert_eq!(unmap("1ü2", "0ü0").unwrap(), "12");
}

#[test]
fn currency_must_match_as_a_whole() {
    let sym = NumberSymbols::monetary_from(".", ",", "-", " ", "USD");
    assert_eq!(unmap_with("USD12", "$00", sym).unwrap(), "12");
    assert_eq!(unmap_with("12USD", "00$", sym).unwrap(), "12");
    assert_eq!(unmap_with("USX12", "$00", sym), Err(NumberFmtError::ParseInvalidCurrency));
    assert_eq!(unmap_with("UXD12", "$00", sym), Err(NumberFmtError::ParseInvalidCurrency));
    assert_eq!(unmap_with("XSD12", "$00", sym), Err(NumberFmtError::ParseInvalidCurrency));
    assert_eq!(unmap_with("12US", "00$", sym), Err(NumberFmtError::ParseInvalidCurrency));
    assert_eq!(unmap_with("12U", "00$", sym), Err(NumberFmtError::ParseInvalidCurrency));
    assert_eq!(unmap_with("12", "00$", sym).unwrap(), "12");
}

#[test]
fn empty_currency_takes_no_character() {
    let sym = NumberSymbols::monetary_from(".", ",", "-", " ", "");
    assert_eq!(unmap_with("12", "$00", sym).unwrap(), "12");
    assert_eq!(unmap_with("12", "0$0", sym).unwrap(), "12");
    assert_eq!(unmap_with("", "$00", sym).unwrap(), "");
}

#[test]
fn reading_stops_where_text_or_pattern_ends() {
    assert_eq!(unmap("12", "0000").unwrap(), "12");
    assert_eq!(unmap("1234xyz", "0000").unwrap(), "1234");
    assert_eq!(unmap("", "0000").unwrap(), "");
    assert_eq!(unmap("12", "").unwrap(), "");
}

#[test]
fn nothing_is_written_when_reading_fails() {
    let format = NumberFormat::new("00x").err();
    assert_eq!(format, Some(NumberFmtError::ParseUnescaped));
    let format = NumberFormat::new("00\\x").unwrap();
    let mut out = String::from("a");
    assert_eq!(
        unmap_num("12y", &format, format.sym(), &mut out),
        Err(NumberFmtError::ParseInvalidSeparator)
    );
    assert_eq!(out, "a");
    assert_eq!(unmap_num("12x", &format, format.sym(), &mut out), Ok(()));
    assert_eq!(out, "a12");
}

#[test]
fn loose_reading_keeps_digits_and_signs() {
    let sym = NumberSymbols::new();
    assert_eq!(clean("  -1,234.50 $", &sym), "-1234.50");
    assert_eq!(clean("1.5E-7", &sym), "1.5e-7");
    assert_eq!(clean("1.5e+7", &sym), "1.5e7");
    assert_eq!(clean("abc", &sym), "");
    assert_eq!(clean("", &sym), "");
}

#[test]
fn loose_reading_drops_leading_zeros() {
    let sym = NumberSymbols::new();
    assert_eq!(clean("000120", &sym), "120");
    assert_eq!(clean("0.05", &sym), ".5");
    assert_eq!(clean("000", &sym), "");
    assert_eq!(clean("-0012.00", &sym), "-12.00");
    assert_eq!(clean("10e05", &sym), "10e05");
}

#[test]
fn loose_reading_maps_the_symbols() {
    let sym = NumberSymbols::monetary_from(",", ".", "−", "+", "€");
    assert_eq!(clean("−1.234,50 €", &sym), "-1234.50");
    assert_eq!(clean("+1.234,50", &sym), "1234.50");
    assert_eq!(clean("-1.234,50", &sym), "1234.50");
    let mut sym = NumberSymbols::new();
    sym.exponent_lower_sym = 'x';
    sym.exponent_upper_sym = 'X';
    assert_eq!(clean("1x5 1X5 1e5", &sym), "1e51e515");
}

#[test]
fn loose_reading_appends() {
    let mut out = String::from(">");
    assert_eq!(clean_num("1 2", &NumberSymbols::new(), &mut out), Ok(()));
    assert_eq!(out, ">12");
}

#[test]
fn parsed_value_or_parse_error() {
    assert_eq!(parsed_value(Some(5)), Ok(5));
    assert_eq!(parsed_value::<i32>(None), Err(NumberFmtError::Parse));
}

#[test]
fn numbers_are_parsed_from_formatted_text() {
    let format = NumberFormat::new("#,##0.00").unwrap();
    assert_eq!(format.parse::<f64>("1,234.50"), Ok(1234.5));
    assert_eq!(format.parse::<f64>("   -4.25"), Ok(-4.25));
    assert_eq!(format.parse::<f32>("    0.50"), Ok(0.5));
    assert_eq!(format.parse::<i32>("1,234.50"), Err(NumberFmtError::Parse));
    assert_eq!(
        format.parse::<f64>("1x234.50"),
        Err(NumberFmtError::ParseInvalidGroupingSep)
    );
    let format = NumberFormat::new("###0").unwrap();
    assert_eq!(format.parse::<i32>(" -12"), Ok(-12));
    assert_eq!(format.parse::<u8>(" 300"), Err(NumberFmtError::Parse));
    assert_eq!(format.parse::<u8>("    "), Err(NumberFmtError::ParseInvalidDigit));
    let format = NumberFormat::new("####").unwrap();
    assert_eq!(format.parse::<u8>("    "), Err(NumberFmtError::Parse));
}

#[test]
fn numbers_are_parsed_with_a_pattern_text() {
    let sym = NumberSymbols::numeric_from(",", ".");
    assert_eq!(parse_format::<f64>("1.234,50", "#,##0.00", &sym), Ok(1234.5));
    assert_eq!(
        parse_format::<f64>("1.234,50", "#,##0.00x", &sym),
        Err(NumberFmtError::ParseUnescaped)
    );
    assert_eq!(
        parse_format::<f64>("1,234.50", "#,##0.00", &sym),
        Err(NumberFmtError::ParseInvalidGroupingSep)
    );
}

#[test]
fn numbers_are_parsed_loosely() {
    let sym = NumberSymbols::new();
    assert_eq!(parse_sym::<f64>("$ 1,234.50", &sym), Ok(1234.5));
    assert_eq!(parse_sym::<i32>("-12 pcs", &sym), Ok(-12));
    assert_eq!(parse_sym::<i32>("none", &sym), Err(NumberFmtError::Parse));
    assert_eq!(parse_sym::<i32>("1.5", &sym), Err(NumberFmtError::Parse));
}

#[test]
fn text_parses_itself() {
    let sym = NumberSymbols::new();
    let format = NumberFormat::new("##0.0").unwrap();
    assert_eq!("  1.5".parse_fmt::<f64>(&format), Ok(1.5));
    assert_eq!(" 1.5 m".parse_sym::<f64>(&sym), Ok(1.5));
    assert_eq!("  1,5".parse_fmt::<f64>(&format), Err(NumberFmtError::ParseInvalidDecimalSep));
    assert_eq!("x".parse_sym::<f64>(&sym), Err(NumberFmtError::Parse));
}

#[test]
fn zero_mask_of_the_exponent_reads_the_padding() {
    assert_eq!(unmap("1e ", "0e0").unwrap(), "1");
    assert_eq!(unmap("1e5 ", "0e#0").unwrap(), "1e5");
    assert_eq!(unmap("1 ", "00"), Err(NumberFmtError::ParseInvalidDigit));
    assert_eq!(unmap("1. ", "0.0"), Err(NumberFmtError::ParseInvalidDigit));
}
