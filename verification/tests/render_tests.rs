use format_num_pattern::codec::{format_raw, format_to, map_num};
use format_num_pattern::raw::{split_num, RawSplit};
use format_num_pattern::{formats, NumberFmtError, NumberFormat, NumberSymbols};
use rust_decimal::Decimal;
use std::fmt;

fn render_with(raw: &str, pattern: &str, sym: NumberSymbols) -> (Result<(), NumberFmtError>, String) {
    let format = NumberFormat::news(pattern, sym).unwrap();
    let mut out = String::new();
    let r = if format.has_exp() {
        map_num::<true>(raw, &format, format.sym(), &mut out)
    } else {
        map_num::<false>(raw, &format, format.sym(), &mut out)
    };
    (r, out)
}

fn render(raw: &str, pattern: &str) -> Result<String, NumberFmtError> {
    let (r, out) = render_with(raw, pattern, NumberSymbols::new());
    r.map(|_| out)
}

#[test]
fn raw_text_is_split_at_the_point_and_the_exponent() {
    assert_eq!(
        split_num("-12.345e-67"),
        RawSplit {
            negative: true,
            int_start: 1,
            int_end: 3,
            frac_start: 4,
            frac_end: 7,
            exp_negative: true,
            exp_start: 9,
        }
    );
    assert_eq!(
        split_num("12.5"),
        RawSplit {
            negative: false,
            int_start: 0,
            int_end: 2,
            frac_start: 3,
            frac_end: 4,
            exp_negative: false,
            exp_start: 4,
        }
    );
    assert_eq!(
        split_num("7e5"),
        RawSplit {
            negative: false,
            int_start: 0,
            int_end: 1,
            frac_start: 1,
            frac_end: 1,
            exp_negative: false,
            exp_start: 2,
        }
    );
}

#[test]
fn raw_text_without_digits_is_split_too() {
    assert_eq!(
        split_num(""),
        RawSplit {
            negative: false,
            int_start: 0,
            int_end: 0,
            frac_start: 0,
            frac_end: 0,
            exp_negative: false,
            exp_start: 0,
        }
    );
    assert_eq!(
        split_num("-"),
        RawSplit {
            negative: true,
            int_start: 1,
            int_end: 1,
            frac_start: 1,
            frac_end: 1,
            exp_negative: false,
            exp_start: 1,
        }
    );
    assert_eq!(
        split_num("1e-"),
        RawSplit {
            negative: false,
            int_start: 0,
            int_end: 1,
            frac_start: 1,
            frac_end: 1,
            exp_negative: true,
            exp_start: 3,
        }
    );
}

#[test]
fn raw_text_with_the_point_behind_the_exponent_has_no_fraction() {
    assert_eq!(
        split_num("1e5.3"),
        RawSplit {
            negative: false,
            int_start: 0,
            int_end: 3,
            frac_start: 1,
            frac_end: 1,
            exp_negative: false,
            exp_start: 2,
        }
    );
}

#[test]
fn digits_are_placed_from_the_right() {
    assert_eq!(render("12", "0000").unwrap(), "0012");
    assert_eq!(render("12", "9999").unwrap(), "  12");
    assert_eq!(render("12", "####").unwrap(), "  12");
    assert_eq!(render("2", "#900").unwrap(), "  02");
    assert_eq!(render("1234", "####").unwrap(), "1234");
}

#[test]
fn fraction_digits_are_placed_from_the_left() {
    assert_eq!(render("1.25", "0.000").unwrap(), "1.250");
    assert_eq!(render("1.25", "0.999").unwrap(), "1.25 ");
    assert_eq!(render("1.25", "0.###").unwrap(), "1.25 ");
    assert_eq!(render("1.25", "0.0").unwrap(), "1.2");
}

#[test]
fn decimal_separator_is_blank_without_a_fraction() {
    assert_eq!(render("1", "0.##").unwrap(), "1   ");
    assert_eq!(render("1", "0.#0").unwrap(), "1. 0");
    assert_eq!(render("1", "0:##").unwrap(), "1.  ");
    assert_eq!(render("1", "0.").unwrap(), "1 ");
    assert_eq!(render("1", "0:").unwrap(), "1.");
}

#[test]
fn grouping_separator_is_blank_left_of_the_number() {
    assert_eq!(render("1234567", "#,###,##0").unwrap(), "1,234,567");
    assert_eq!(render("4567", "#,###,##0").unwrap(), "    4,567");
    assert_eq!(render("567", "#,###,##0").unwrap(), "      567");
    assert_eq!(render("567", "0,000,000").unwrap(), "0 000 567");
}

#[test]
fn grouping_separator_is_left_out_without_a_symbol() {
    let mut sym = NumberSymbols::new();
    sym.decimal_grp = None;
    let (r, out) = render_with("-1234", "##,##0", sym);
    assert_eq!(r, Ok(()));
    assert_eq!(out, "-1234");
    let (r, out) = render_with("-234", "##,##0", sym);
    assert_eq!(r, Ok(()));
    assert_eq!(out, " -234");
}

#[test]
fn sign_token_shows_the_glyph_of_the_symbols() {
    assert_eq!(render("-12", "-##0").unwrap(), "- 12");
    assert_eq!(render("12", "-##0").unwrap(), "  12");
    assert_eq!(render("-12", "##0-").unwrap(), " 12-");
    let mut sym = NumberSymbols::new();
    sym.negative_sym = '−';
    sym.positive_sym = '+';
    assert_eq!(render_with("-12", "-##0", sym), (Ok(()), "− 12".to_string()));
    assert_eq!(render_with("12", "-##0", sym), (Ok(()), "+ 12".to_string()));
}

#[test]
fn plus_token_shows_plus_or_minus() {
    assert_eq!(render("12", "+##0").unwrap(), "+ 12");
    assert_eq!(render("-12", "+##0").unwrap(), "- 12");
    let mut sym = NumberSymbols::new();
    sym.negative_sym = '−';
    sym.positive_sym = '*';
    assert_eq!(render_with("-12", "+##0", sym), (Ok(()), "- 12".to_string()));
    assert_eq!(render_with("12", "+##0", sym), (Ok(()), "+ 12".to_string()));
}

#[test]
fn sign_stands_at_a_numeric_left_of_the_digits() {
    assert_eq!(render("-12", "####").unwrap(), " -12");
    assert_eq!(render("-12", "#000").unwrap(), "-012");
    assert_eq!(render("-12", "##99").unwrap(), " -12");
    assert_eq!(render("-1", "##99").unwrap(), " - 1");
    assert_eq!(render("-123", "####").unwrap(), "-123");
}

#[test]
fn sign_stands_at_a_grouping_separator() {
    assert_eq!(render("-123", "#,###").unwrap(), " -123");
    assert_eq!(render("-123", "###,###").unwrap(), "   -123");
    assert_eq!(render("-1234", "###,###").unwrap(), " -1,234");
}

#[test]
fn positive_sign_glyph_takes_the_place_of_the_sign() {
    let mut sym = NumberSymbols::new();
    sym.positive_sym = '+';
    assert_eq!(render_with("12", "####", sym), (Ok(()), " +12".to_string()));
    assert_eq!(render_with("123", "#,###", sym), (Ok(()), " +123".to_string()));
}

#[test]
fn sign_is_written_once() {
    for raw in ["-1", "-12", "-123", "-1234", "-12345"] {
        let text = render(raw, "###,###,##0").unwrap();
        assert_eq!(text.chars().filter(|c| *c == '-').count(), 1);
    }
    for raw in ["-1.5e-5", "-1.5e-15", "-1.5e5"] {
        let text = render(raw, "##0.0e###").unwrap();
        let mantissa: String = text.chars().take_while(|c| *c != 'e').collect();
        assert_eq!(mantissa.chars().filter(|c| *c == '-').count(), 1);
    }
}

#[test]
fn sign_is_written_by_the_last_place_at_its_index() {
    assert_eq!(render("-5", "#,,#").unwrap(), "  -5");
    assert_eq!(render("5", "#,,#").unwrap(), "   5");
    assert_eq!(render("15", "#,,#").unwrap(), "1,,5");
    assert_eq!(render("-15", "##,,#").unwrap(), "-1,,5");
    assert_eq!(render("-5", "# ,#").unwrap(), "  -5");
    assert_eq!(render("-5", ",#").unwrap(), "-5");
    assert_eq!(render("-5", "#\\x#").unwrap(), "-x5");
    assert_eq!(render("-5", "##, ,#").unwrap(), "    -5");
    assert_eq!(render("-15", "##, ,#").unwrap(), "-1, ,5");
    for pattern in ["#,,#", "#,#,,#", "# , ,#", ",,##", "#,\\x,#"] {
        for raw in ["-1", "-12"] {
            if let Ok(text) = render(raw, pattern) {
                assert_eq!(text.chars().filter(|c| *c == '-').count(), 1);
            }
        }
    }
}

#[test]
fn minus_is_written_once_for_a_negative_number_and_never_for_another() {
    let patterns = [
        "###0", "#,##0.00", "-###0", "###0-", "+##0.0", "#,,#", "# ,#", "$ #,##0.00", "0000",
        "9990:##", "##,##,##0", ",,##", "#,#,#",
    ];
    let raws = ["0", "5", "-5", "12", "-12", "123.45", "-123.45", "-1234", "1234", "-0.5"];
    for pattern in patterns {
        for raw in raws {
            let (r, out) = render_with(raw, pattern, NumberSymbols::new());
            if r.is_ok() {
                let count = out.chars().filter(|c| *c == '-').count();
                assert_eq!(count, if raw.starts_with('-') { 1 } else { 0 }, "{pattern} {raw}");
            }
        }
    }
    assert_eq!(render("-5", "#,#,#").unwrap(), "   -5");
    assert_eq!(render("-5", ",,##").unwrap(), "  -5");
}

#[test]
fn too_wide_a_number_is_refused_and_nothing_written() {
    let (r, out) = render_with("12345", "####", NumberSymbols::new());
    assert_eq!(r, Err(NumberFmtError::FmtLenInt));
    assert_eq!(out, "");
    let (r, out) = render_with("-12345.5", "-#,##0.0", NumberSymbols::new());
    assert_eq!(r, Err(NumberFmtError::FmtLenInt));
    assert_eq!(out, "");
    let (r, out) = render_with("1", ".00", NumberSymbols::new());
    assert_eq!(r, Err(NumberFmtError::FmtLenInt));
    assert_eq!(out, "");
}

#[test]
fn too_wide_an_exponent_is_refused_and_nothing_written() {
    let (r, out) = render_with("1.5e123", "0.0e##", NumberSymbols::new());
    assert_eq!(r, Err(NumberFmtError::FmtLenExp));
    assert_eq!(out, "");
    let (r, out) = render_with("1.5e-12", "0.0e##", NumberSymbols::new());
    assert_eq!(r, Err(NumberFmtError::FmtLenExp));
    assert_eq!(out, "");
    let (r, out) = render_with("1.5e-7", "0.0e-00", NumberSymbols::new());
    assert_eq!(r, Err(NumberFmtError::FmtLenExp));
    assert_eq!(out, "");
    let (r, out) = render_with("1.5e7", "0.0e", NumberSymbols::new());
    assert_eq!(r, Err(NumberFmtError::FmtLenExp));
    assert_eq!(out, "");
}

#[test]
fn missing_place_for_the_sign_is_reported_behind_the_text() {
    let (r, out) = render_with("-1.50", "00.00", NumberSymbols::new());
    assert_eq!(r, Err(NumberFmtError::FmtNoSign));
    assert_eq!(out, "01.50");
    let (r, out) = render_with("-12", "99", NumberSymbols::new());
    assert_eq!(r, Err(NumberFmtError::FmtNoSign));
    assert_eq!(out, "12");
    let (r, out) = render_with("-12", "##", NumberSymbols::new());
    assert_eq!(r, Err(NumberFmtError::FmtNoSign));
    assert_eq!(out, "12");
}

#[test]
fn missing_place_for_the_exponent_sign_is_reported() {
    let (r, out) = render_with("1.5e-7", "0.0e990", NumberSymbols::new());
    assert_eq!(r, Err(NumberFmtError::FmtNoExpSign));
    assert_eq!(out, "1.5e  7");
    let (r, out) = render_with("1.5e-7", "0.0", NumberSymbols::new());
    assert_eq!(r, Err(NumberFmtError::FmtNoExpSign));
    assert_eq!(out, "1.5");
    let (r, _) = render_with("-1.5e-7", "0.0e990", NumberSymbols::new());
    assert_eq!(r, Err(NumberFmtError::FmtNoSign));
}

#[test]
fn exponent_is_written_left_and_padded_behind() {
    assert_eq!(render("1.5e7", "0.0e###").unwrap(), "1.5e7  ");
    assert_eq!(render("1.5e17", "0.0e###").unwrap(), "1.5e17 ");
    assert_eq!(render("1.5e117", "0.0e###").unwrap(), "1.5e117");
    assert_eq!(render("1.5e-7", "0.0e###").unwrap(), "1.5e-7 ");
    assert_eq!(render("1.5e-17", "0.0e###").unwrap(), "1.5e-17");
    assert_eq!(render("1.5e7", "0.0E###").unwrap(), "1.5E7  ");
}

#[test]
fn exponent_with_fixed_digits_keeps_them() {
    assert_eq!(render("1.5e7", "0.0e000").unwrap(), "1.5e007");
    assert_eq!(render("1.5e7", "0.0e#00").unwrap(), "1.5e07 ");
    assert_eq!(render("1.5e-7", "0.0e#00").unwrap(), "1.5e-07");
    assert_eq!(render("1.5e7", "0.0e##0").unwrap(), "1.5e7  ");
    assert_eq!(render("1.5e7", "0.0e999").unwrap(), "1.5e 7 ");
}

#[test]
fn exponent_sign_token_shows_plus_for_a_blank_positive_sign() {
    assert_eq!(render("1.5e7", "0.0e-##").unwrap(), "1.5e+7 ");
    assert_eq!(render("1.5e-7", "0.0e-##").unwrap(), "1.5e- 7");
    assert_eq!(render("1.5e-17", "0.0e-###").unwrap(), "1.5e- 17");
    assert_eq!(render("1.5e7", "0.0e+##").unwrap(), "1.5e+7 ");
    assert_eq!(render("1.5e-7", "0.0e+##").unwrap(), "1.5e- 7");
    let mut sym = NumberSymbols::new();
    sym.positive_sym = '*';
    sym.negative_sym = '~';
    assert_eq!(render_with("1.5e7", "0.0e-##", sym), (Ok(()), "1.5e*7 ".to_string()));
    assert_eq!(render_with("1.5e-7", "0.0e-##", sym), (Ok(()), "1.5e~ 7".to_string()));
    assert_eq!(render_with("1.5e-7", "0.0e+##", sym), (Ok(()), "1.5e- 7".to_string()));
}

#[test]
fn exponent_marker_is_blank_without_an_exponent() {
    assert_eq!(render("1.5", "0.0e##").unwrap(), "1.5   ");
    assert_eq!(render("1.5", "0.0e#0").unwrap(), "1.5e0 ");
}

#[test]
fn exponent_tokens_write_nothing_when_the_exponent_is_off() {
    let format = NumberFormat::new("0.0e-##\\x").unwrap();
    let mut out = String::new();
    assert_eq!(map_num::<false>("1.5", &format, format.sym(), &mut out), Ok(()));
    assert_eq!(out, "1.5x");
    let mut out = String::new();
    assert_eq!(
        map_num::<false>("1.5e-3", &format, format.sym(), &mut out),
        Err(NumberFmtError::FmtNoExpSign)
    );
    assert_eq!(out, "1.5x");
}

#[test]
fn currency_and_literals_are_written_as_they_stand() {
    let sym = NumberSymbols::monetary_from(",", ".", "-", " ", "€");
    assert_eq!(render_with("1234.50", "#,##0.00 $", sym), (Ok(()), "1.234,50 €".to_string()));
    let sym = NumberSymbols::monetary_from(".", ",", "-", " ", "");
    assert_eq!(render_with("12", "$##0", sym), (Ok(()), " 12".to_string()));
    assert_eq!(render("12", "\\a##0\\b ü").unwrap(), "a 12b ü");
}

#[test]
fn text_is_appended_to_what_is_there() {
    let format = NumberFormat::new("##0").unwrap();
    let mut out = String::from("x=");
    assert_eq!(map_num::<false>("12", &format, format.sym(), &mut out), Ok(()));
    assert_eq!(out, "x= 12");
    assert_eq!(format_to(7u8, &format, format.sym(), &mut out), Ok(()));
    assert_eq!(out, "x= 12  7");
}

#[test]
fn text_that_is_no_number_is_rendered_byte_by_byte() {
    assert_eq!(render("NaN", "###0").unwrap(), " NaN");
    assert_eq!(render("inf", "###0.00").unwrap(), " inf.00");
}

#[test]
fn missing_raw_text_is_a_formatting_error() {
    let format = NumberFormat::new("##0").unwrap();
    let mut out = String::from("x");
    assert_eq!(
        format_raw(None, &format, format.sym(), &mut out),
        Err(NumberFmtError::Fmt)
    );
    assert_eq!(out, "x");
    assert_eq!(
        format_raw(Some("12".to_string()), &format, format.sym(), &mut out),
        Ok(())
    );
    assert_eq!(out, "x 12");
}

struct Broken;

impl fmt::Display for Broken {
    fn fmt(&self, _: &mut fmt::Formatter<'_>) -> fmt::Result {
        Err(fmt::Error)
    }
}

impl fmt::LowerExp for Broken {
    fn fmt(&self, _: &mut fmt::Formatter<'_>) -> fmt::Result {
        Err(fmt::Error)
    }
}

#[test]
fn failing_conversion_is_a_formatting_error() {
    assert_eq!(
        format_num_pattern::format(Broken, "##0"),
        Err(NumberFmtError::Fmt)
    );
    assert_eq!(
        format_num_pattern::format(Broken, "0e0"),
        Err(NumberFmtError::Fmt)
    );
    let format = NumberFormat::new("##0").unwrap();
    assert_eq!(format.fmt_u(Broken), "Fmt");
}

#[test]
fn numbers_are_converted_with_the_precision_of_the_pattern() {
    assert_eq!(format_num_pattern::format(1.256f64, "0.00").unwrap(), "1.26");
    assert_eq!(format_num_pattern::format(1.0f32, "0.000").unwrap(), "1.000");
    assert_eq!(format_num_pattern::format(2.5f64, "0").unwrap(), "2");
    assert_eq!(format_num_pattern::format(1234.5f64, "0.00e###").unwrap(), "1.23e3  ");
    assert_eq!(format_num_pattern::format(0.00123f64, "0.00e###").unwrap(), "1.23e-3 ");
    assert_eq!(format_num_pattern::format(15, "##0.00").unwrap(), " 15.00");
    assert_eq!(format_num_pattern::format(1500u32, "0.0e##").unwrap(), "1.5e3 ");
}

#[test]
fn pattern_of_formats_is_compiled_with_the_default_symbols() {
    let mut sym = NumberSymbols::new();
    sym.decimal_grp = None;
    assert_eq!(formats(-12, "#,##", &sym), Err(NumberFmtError::FmtNoSign));
    assert_eq!(formats(-1, "#,##", &sym).unwrap(), " -1");
    let format = NumberFormat::news("#,##", sym).unwrap();
    assert_eq!(format.fmt(-12).unwrap(), "-12");
    assert_eq!(format.fmt(-1).unwrap(), " -1");
}

#[test]
fn pattern_with_too_many_fraction_digits_cannot_be_converted() {
    let pattern = format!("0.{}", "0".repeat(70000));
    let format = NumberFormat::new(&pattern).unwrap();
    assert_eq!(format.len_frac(), 70000);
    assert_eq!(format.fmt(1.5f64), Err(NumberFmtError::Fmt));
    let pattern = format!("0.{}e##", "9".repeat(65536));
    let format = NumberFormat::new(&pattern).unwrap();
    assert_eq!(format.fmt(1.5f64), Err(NumberFmtError::Fmt));
    let pattern = format!("0.{}", "0".repeat(65535));
    let format = NumberFormat::new(&pattern).unwrap();
    assert_eq!(format.fmt(1.5f64).map(|s| s.len()), Ok(65537));
}

#[test]
fn wide_decimals_are_converted_without_a_precision() {
    let pattern = format!("#####0.{}", "0".repeat(28));
    let format = NumberFormat::new(&pattern).unwrap();
    let text = format.fmt(Decimal::new(12345, 0)).unwrap();
    assert_eq!(text, format!(" 12345.{}", "0".repeat(28)));
    let text = format.fmt(Decimal::new(12345678, 3)).unwrap();
    assert_eq!(text, format!(" 12345.678{}", "0".repeat(25)));
    let text = format.fmt(Decimal::new(-5, 1)).unwrap();
    assert_eq!(text, format!("    -0.5{}", "0".repeat(27)));
    let format = NumberFormat::new("#####0.0").unwrap();
    assert_eq!(format.fmt(Decimal::new(12345678, 3)).unwrap(), " 12345.6");
    let pattern = format!("{}0", "#".repeat(40));
    let format = NumberFormat::new(&pattern).unwrap();
    assert_eq!(
        format.fmt(u128::MAX).unwrap(),
        format!("  {}", u128::MAX)
    );
}

#[test]
fn wide_numbers_are_converted_with_the_precision_of_the_pattern() {
    let pattern = format!("{}0.00", "#".repeat(400));
    let format = NumberFormat::new(&pattern).unwrap();
    for number in [
        1.5e31f64,
        1e300f64,
        -2.5e40f64,
        123456789012345678901234567890123.0f64,
        1.5e30f64,
        -1.5e28f64,
        1e22f64,
        -123456.7f64,
    ] {
        let text = format.fmt(number).unwrap();
        assert_eq!(text.trim_start(), format!("{:.2}", number));
    }
    let text = format.fmt(1e35f32).unwrap();
    assert_eq!(text.trim_start(), format!("{:.2}", 1e35f32));
    let pattern = format!("##0.{}", "0".repeat(30));
    let format = NumberFormat::new(&pattern).unwrap();
    assert_eq!(format.fmt(0.1f64).unwrap(), format!("  {:.30}", 0.1f64));
    assert_eq!(
        format.fmt(0.5f64).unwrap(),
        format!("  0.5{}", "0".repeat(29))
    );
}

#[test]
fn decimals_too_wide_for_their_conversion_keep_their_digits() {
    let pattern = format!("{}0.00000", "#".repeat(30));
    let format = NumberFormat::new(&pattern).unwrap();
    assert_eq!(
        format.fmt(Decimal::MAX).unwrap().trim_start(),
        "79228162514264337593543950335.00000"
    );
    assert_eq!(
        format.fmt(Decimal::MIN).unwrap().trim_start(),
        "-79228162514264337593543950335.00000"
    );
    let pattern = format!("{}0.{}", "#".repeat(30), "0".repeat(30));
    let format = NumberFormat::new(&pattern).unwrap();
    assert_eq!(
        format.fmt(Decimal::new(-1234567, 2)).unwrap().trim_start(),
        format!("-12345.67{}", "0".repeat(28))
    );
    for digits in 0..40usize {
        let pattern = format!("{}0.{}", "#".repeat(30), "0".repeat(digits));
        let format = NumberFormat::new(&pattern).unwrap();
        let point = if digits > 0 { "." } else { "" };
        for number in [Decimal::MAX, Decimal::MIN, Decimal::new(i64::MIN, 0)] {
            assert_eq!(
                format.fmt(number).unwrap().trim(),
                format!("{}{}{}", number, point, "0".repeat(digits))
            );
        }
        let small = Decimal::new(-12345678901234567, 14);
        let text = format.fmt(small).unwrap();
        let shown = if digits >= 14 {
            format!("-123.45678901234567{}", "0".repeat(digits - 14))
        } else {
            format!("-123.45678901234567").chars().take(5 + digits).collect::<String>()
        };
        assert_eq!(text.trim(), if digits > 0 { shown.as_str() } else { "-123" });
    }
}
