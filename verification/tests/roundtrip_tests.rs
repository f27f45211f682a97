use format_num_pattern::codec::{map_num, unmap_num};
use format_num_pattern::{
    fmt, fmt_to, format_to, formats_to, parse_fmt, FormatNumber, FormattedNumber, NumberFmtError,
    NumberFormat, NumberSymbols, RefFormattedNumber,
};
use rust_decimal::Decimal;

fn there_and_back(raw: &str, pattern: &str, sym: NumberSymbols) -> String {
    let format = NumberFormat::news(pattern, sym).unwrap();
    let mut text = String::new();
    let r = if format.has_exp() {
        map_num::<true>(raw, &format, format.sym(), &mut text)
    } else {
        map_num::<false>(raw, &format, format.sym(), &mut text)
    };
    assert_eq!(r, Ok(()));
    let mut back = String::new();
    assert_eq!(unmap_num(&text, &format, format.sym(), &mut back), Ok(()));
    back
}

#[test]
fn rendered_text_reads_back_unchanged() {
    let sym = NumberSymbols::new();
    assert_eq!(there_and_back("1234.50", "#,##0.00", sym), "1234.50");
    assert_eq!(there_and_back("-1234.50", "##,##0.00", sym), "-1234.50");
    assert_eq!(there_and_back("-4.25", "#,##0.00", sym), "-4.25");
    assert_eq!(there_and_back("12", "####", sym), "12");
    assert_eq!(there_and_back("-12", "-###", sym), "-12");
    assert_eq!(there_and_back("0", "##0", sym), "0");
    assert_eq!(there_and_back("12", "$ ##0 \\p\\c\\s", sym), "12");
}

#[test]
fn rendered_text_reads_back_with_zeros_of_the_pattern() {
    let sym = NumberSymbols::new();
    assert_eq!(there_and_back("12", "0000", sym), "0012");
    assert_eq!(there_and_back("-12", "-0000", sym), "-0012");
    assert_eq!(there_and_back("12", "##0.00", sym), "12.00");
    assert_eq!(there_and_back("1.5", "0.000", sym), "1.500");
    assert_eq!(there_and_back("1.5e7", "0.0e00", sym), "1.5e07");
}

#[test]
fn rendered_text_reads_back_with_a_plus() {
    let sym = NumberSymbols::new();
    assert_eq!(there_and_back("12", "+##0", sym), "+12");
    assert_eq!(there_and_back("-12", "+##0", sym), "-12");
}

#[test]
fn rendered_text_reads_back_with_a_point_that_is_always_written() {
    let sym = NumberSymbols::new();
    assert_eq!(there_and_back("12", "##0:", sym), "12.");
    assert_eq!(there_and_back("12", "##0.", sym), "12");
}

#[test]
fn rendered_exponent_reads_back() {
    let sym = NumberSymbols::new();
    assert_eq!(there_and_back("1.50e12", "0.00e##", sym), "1.50e12");
    assert_eq!(there_and_back("1.50e-12", "0.00e###", sym), "1.50e-12");
    assert_eq!(there_and_back("-1.50e-12", "-0.00e-#00", sym), "-1.50e-12");
    assert_eq!(there_and_back("1.50e5", "0.00e###", sym), "1.50e5");
    assert_eq!(there_and_back("1.50e-5", "0.00e###", sym), "1.50e-5");
}

#[test]
fn rendered_text_reads_back_with_other_symbols() {
    let sym = NumberSymbols::monetary_from(",", ".", "−", "+", "EUR");
    assert_eq!(there_and_back("-1234.50", "##,##0.00 $", sym), "-1234.50");
    assert_eq!(there_and_back("1234.50", "##,##0.00 $", sym), "1234.50");
    assert_eq!(there_and_back("-1.5e-3", "-0.0e-#00 $", sym), "-1.5e-03");
}

#[test]
fn shifted_exponent_reads_back_into_fixed_digits() {
    let sym = NumberSymbols::new();
    assert_eq!(there_and_back("1.5e7", "0.0e##0", sym), "1.5e7");
    assert_eq!(there_and_back("1.5e5", "0.0e#00", sym), "1.5e05");
    assert_eq!(there_and_back("1e5", "0e90#", sym), "1e05");
    assert_eq!(there_and_back("1e5", "0e#900", sym), "1e05");
    assert_eq!(there_and_back("1.5e-5", "0.0e##0", sym), "1.5e-5");
    assert_eq!(there_and_back("1.5e-5", "0.0e-#00", sym), "1.5e-05");
}

#[test]
fn values_survive_formatting_and_parsing() {
    let format = NumberFormat::new("-###,##0.000").unwrap();
    for v in [0.0f64, 1.0, -1.0, 12.345, -999999.999, 0.001, 123456.5] {
        let text = format.fmt(v).unwrap();
        assert_eq!(text.chars().count(), 12);
        assert_eq!(parse_fmt::<f64>(&text, &format), Ok(v));
    }
    let format = NumberFormat::new("###0").unwrap();
    for v in [0i32, 7, -7, 123, -999, 9999] {
        let text = format.fmt(v).unwrap();
        assert_eq!(format.parse::<i32>(&text), Ok(v));
    }
    let format = NumberFormat::new("-0.000e-###").unwrap();
    for v in [1.5e10f64, -2.25e-7, 1.0, 6.022e23] {
        let text = format.fmt(v).unwrap();
        assert_eq!(parse_fmt::<f64>(&text, &format), Ok(v));
    }
}

#[test]
fn functions_write_the_same_text() {
    let format = NumberFormat::new("#,##0.00").unwrap();
    assert_eq!(fmt(1234.5f64, &format), "1,234.50");
    assert_eq!(format.fmt(1234.5f64).unwrap(), "1,234.50");
    assert_eq!(format.fmt_u(1234.5f64), "1,234.50");
    let mut out = String::new();
    fmt_to(1234.5f64, &format, &mut out);
    assert_eq!(format.fmt_to(1234.5f64, &mut out), Ok(()));
    assert_eq!(format_to(1234.5f64, "#,##0.00", &mut out), Ok(()));
    assert_eq!(
        formats_to(1234.5f64, "#,##0.00", &NumberSymbols::new(), &mut out),
        Ok(())
    );
    assert_eq!(out, "1,234.501,234.501,234.501,234.50");
}

#[test]
fn errors_are_passed_on_or_written() {
    let format = NumberFormat::new("#0.00").unwrap();
    assert_eq!(format.fmt(1234.5f64), Err(NumberFmtError::FmtLenInt));
    assert_eq!(format.fmt_u(1234.5f64), "FmtLenInt");
    assert_eq!(fmt(1234.5f64, &format), "FmtLenInt");
    let format = NumberFormat::new("00.00").unwrap();
    assert_eq!(format.fmt_u(-1.5f64), "FmtNoSign");
    assert_eq!(fmt(-1.5f64, &format), "FmtNoSign");
    assert_eq!(fmt(-1i32, &format), "FmtNoSign");
    let mut out = String::from(">");
    fmt_to(-1.5f64, &format, &mut out);
    assert_eq!(out, ">FmtNoSign");
    fmt_to(1.5f64, &format, &mut out);
    assert_eq!(out, ">FmtNoSign01.50");
    let mut out = String::from("x");
    assert_eq!(
        format_to(1.5f64, "0.0.0", &mut out),
        Err(NumberFmtError::ParseInvalidDecimalSep)
    );
    assert_eq!(
        formats_to(1.5f64, "0q", &NumberSymbols::new(), &mut out),
        Err(NumberFmtError::ParseUnescaped)
    );
    assert_eq!(out, "x");
    assert_eq!(
        format_num_pattern::format(1.5f64, "0.0e0e0"),
        Err(NumberFmtError::ParseInvalidExp)
    );
}

#[test]
fn numbers_format_themselves() {
    let sym = NumberSymbols::numeric_from(",", ".");
    let format = NumberFormat::news("#,##0.00", sym).unwrap();
    assert_eq!(FormatNumber::fmt(&1234u32, &format).to_string().unwrap(), "1.234,00");
    assert_eq!(FormatNumber::fmt(&-12i64, &format).to_string().unwrap(), "  -12,00");
    assert_eq!(
        FormatNumber::format(&1234u16, "#,##0.00", &sym)
            .unwrap()
            .to_string()
            .unwrap(),
        "1.234,00"
    );
    assert_eq!(
        FormatNumber::format(&7u8, "0x", &sym).err(),
        Some(NumberFmtError::ParseUnescaped)
    );
    assert_eq!(
        FormatNumber::fmt(&123456i128, &format).to_string(),
        Err(NumberFmtError::FmtLenInt)
    );
    assert_eq!(FormatNumber::fmt(&5usize, &format).to_string().unwrap(), "    5,00");
    assert_eq!(FormatNumber::fmt(&5isize, &format).to_string().unwrap(), "    5,00");
    assert_eq!(FormatNumber::fmt(&5u64, &format).to_string().unwrap(), "    5,00");
    assert_eq!(FormatNumber::fmt(&5u128, &format).to_string().unwrap(), "    5,00");
    assert_eq!(FormatNumber::fmt(&-5i8, &format).to_string().unwrap(), "   -5,00");
    assert_eq!(FormatNumber::fmt(&-5i16, &format).to_string().unwrap(), "   -5,00");
    assert_eq!(FormatNumber::fmt(&-5i32, &format).to_string().unwrap(), "   -5,00");
}

#[test]
fn decimals_are_formatted() {
    let format = NumberFormat::new("#,##0.00").unwrap();
    let v = Decimal::new(123456, 2);
    assert_eq!(format.fmt(v).unwrap(), "1,234.56");
    assert_eq!(FormatNumber::fmt(&v, &format).to_string().unwrap(), "1,234.56");
    assert_eq!(format.fmt(Decimal::new(-5, 1)).unwrap(), "   -0.50");
    assert_eq!(format.parse::<Decimal>("1,234.56"), Ok(v));
    let format = NumberFormat::new("0.00e##").unwrap();
    assert_eq!(format.fmt(v).unwrap(), "1.23e3 ");
}

#[test]
fn formatted_numbers_can_be_made_directly() {
    let sym = NumberSymbols::new();
    let n = FormattedNumber::new(1.5f64, "0.00", &sym).unwrap();
    assert_eq!(n.to_string().unwrap(), "1.50");
    let format = NumberFormat::new("0.0").unwrap();
    let n = RefFormattedNumber::new(2.25f32, &format);
    assert_eq!(n.to_string().unwrap(), "2.2");
    assert_eq!(
        FormattedNumber::new(1.5f64, "0.0.0", &sym).err(),
        Some(NumberFmtError::ParseInvalidDecimalSep)
    );
}

#[test]
fn rendered_text_reads_back_without_a_grouping_symbol() {
    let mut sym = NumberSymbols::new();
    sym.decimal_grp = None;
    assert_eq!(there_and_back("1234", "#,##0", sym), "1234");
    assert_eq!(there_and_back("-1234.50", "##,##0.00", sym), "-1234.50");
    assert_eq!(there_and_back("-4", "#,###,##0", sym), "-4");
}

#[test]
fn shifted_exponent_of_nines_reads_back() {
    let sym = NumberSymbols::new();
    assert_eq!(there_and_back("1e5", "0e99", sym), "1e5");
    assert_eq!(there_and_back("1.5e5", "0.0e#99", sym), "1.5e5");
    assert_eq!(there_and_back("1.5e-5", "0.0e##9", sym), "1.5e-5");
    assert_eq!(there_and_back("1.5e-15", "0.0e###9", sym), "1.5e-15");
}

#[test]
fn rendered_text_reads_back_without_a_currency_symbol() {
    let sym = NumberSymbols::monetary_from(".", ",", "-", " ", "");
    assert_eq!(there_and_back("-12.50", "$ ##0.00", sym), "-12.50");
    assert_eq!(there_and_back("12.50", "##0.00 $", sym), "12.50");
}
