use format_num_pattern::codec::{map_num, unmap_num};
use format_num_pattern::{formats, parse_fmt, NumberFmtError, NumberFormat, NumberSymbols};

fn render(raw: &str, pattern: &str) -> Result<String, NumberFmtError> {
    let format = NumberFormat::new(pattern).unwrap();
    let mut out = String::new();
    let r = if format.has_exp() {
        map_num::<true>(raw, &format, format.sym(), &mut out)
    } else {
        map_num::<false>(raw, &format, format.sym(), &mut out)
    };
    r.map(|_| out)
}

#[test]
fn escaped_mask_character_is_a_literal() {
    assert_eq!(format_num_pattern::format(7, "\\#00").unwrap(), "#07");
}

#[test]
fn sign_stands_left_of_the_first_digit() {
    assert_eq!(format_num_pattern::format(-5, "#,##0").unwrap(), "   -5");
    assert_eq!(format_num_pattern::format(-1234, "##,##0").unwrap(), "-1,234");
    assert_eq!(
        format_num_pattern::format(-1234, "#,##0"),
        Err(NumberFmtError::FmtNoSign)
    );
    assert_eq!(format_num_pattern::format(-234, "#,##0").unwrap(), " -234");
}

#[test]
fn exponent_is_shifted_left() {
    assert_eq!(render("1.23e5", "#.##e###").unwrap(), "1.23e5  ");
    assert_eq!(format_num_pattern::format(123456.0f64, "#.##e###").unwrap(), "1.23e5  ");
}

#[test]
fn exponent_with_zero_masks_is_padded_with_zeros() {
    assert_eq!(render("1.23e5", "#.##e000").unwrap(), "1.23e005");
}

#[test]
fn negative_without_a_place_for_the_sign_is_refused() {
    assert_eq!(format_num_pattern::format(-1.5f64, "00.00"), Err(NumberFmtError::FmtNoSign));
}

#[test]
fn too_many_integer_digits_are_refused() {
    assert_eq!(format_num_pattern::format(12345, "###0"), Err(NumberFmtError::FmtLenInt));
}

#[test]
fn currency_is_matched_as_a_whole() {
    let sym = NumberSymbols::monetary_from(".", ",", "-", " ", "USD");
    let format = NumberFormat::news("$ ##0.00", sym).unwrap();
    assert_eq!(format.fmt(12.5f64).unwrap(), "USD  12.50");
    assert_eq!(parse_fmt::<f64>("USD  12.50", &format), Ok(12.5));
    assert_eq!(
        parse_fmt::<f64>("USX  12.50", &format),
        Err(NumberFmtError::ParseInvalidCurrency)
    );
    assert_eq!(
        parse_fmt::<f64>("XSD  12.50", &format),
        Err(NumberFmtError::ParseInvalidCurrency)
    );
    assert_eq!(
        parse_fmt::<f64>("UXD  12.50", &format),
        Err(NumberFmtError::ParseInvalidCurrency)
    );
    assert_eq!(
        parse_fmt::<f64>("US", &format),
        Err(NumberFmtError::ParseInvalidCurrency)
    );
}

#[test]
fn formatted_text_reads_back() {
    let format = NumberFormat::new("###,##0.00").unwrap();
    let text = format.fmt(-1234.5f64).unwrap();
    assert_eq!(text, " -1,234.50");
    let mut raw = String::new();
    unmap_num(&text, &format, format.sym(), &mut raw).unwrap();
    assert_eq!(raw, "-1234.50");
    assert_eq!(format.parse::<f64>(&text), Ok(-1234.5));
}

#[test]
fn other_symbols_are_written() {
    let sym = NumberSymbols::numeric_from(",", ".");
    assert_eq!(formats(1234.5f64, "#,##0.00", &sym).unwrap(), "1.234,50");
}
