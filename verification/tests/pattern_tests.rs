use format_num_pattern::token::{parse_tokens, Mode, Token};
use format_num_pattern::{NumberFmtError, NumberFormat, NumberSymbols};

#[test]
fn tokenizer_reads_every_mask_character() {
    let tokens = parse_tokens("09#.09#e09#").unwrap();
    assert_eq!(
        tokens,
        vec![
            Token::Digit0(Mode::Integer, 0),
            Token::Digit(Mode::Integer, 0),
            Token::Numeric(Mode::Integer, 0, false),
            Token::DecimalSep,
            Token::Digit0(Mode::Fraction, 0),
            Token::Digit(Mode::Fraction, 0),
            Token::Numeric(Mode::Fraction, 0, false),
            Token::ExponentLower,
            Token::Digit0(Mode::Exponent, 0),
            Token::Digit(Mode::Exponent, 0),
            Token::Numeric(Mode::Exponent, 0, false),
        ]
    );
}

#[test]
fn tokenizer_tells_the_signs_apart_by_section() {
    assert_eq!(
        parse_tokens("-+,$:E-+").unwrap(),
        vec![
            Token::SignInt,
            Token::PlusInt,
            Token::GroupingSep(0, false),
            Token::Currency,
            Token::DecimalSepAlways,
            Token::ExponentUpper,
            Token::SignExp,
            Token::PlusExp,
        ]
    );
}

#[test]
fn tokenizer_takes_escaped_and_foreign_characters_as_literals() {
    assert_eq!(
        parse_tokens("\\0 \\\\€\\e").unwrap(),
        vec![
            Token::Separator('0'),
            Token::Separator(' '),
            Token::Separator('\\'),
            Token::Separator('€'),
            Token::Separator('e'),
        ]
    );
}

#[test]
fn tokenizer_passes_over_a_backslash_at_the_end() {
    assert_eq!(
        parse_tokens("0\\").unwrap(),
        vec![Token::Digit0(Mode::Integer, 0)]
    );
    assert_eq!(parse_tokens("").unwrap(), vec![]);
}

#[test]
fn tokenizer_refuses_an_unescaped_ascii_character() {
    assert_eq!(parse_tokens("0x"), Err(NumberFmtError::ParseUnescaped));
    assert_eq!(parse_tokens("##%"), Err(NumberFmtError::ParseUnescaped));
    assert_eq!(parse_tokens("a"), Err(NumberFmtError::ParseUnescaped));
}

#[test]
fn tokenizer_refuses_a_second_decimal_separator() {
    assert_eq!(
        parse_tokens("0.0.0"),
        Err(NumberFmtError::ParseInvalidDecimalSep)
    );
    assert_eq!(
        parse_tokens("0.0:0"),
        Err(NumberFmtError::ParseInvalidDecimalSep)
    );
    assert_eq!(
        parse_tokens("0e0.0"),
        Err(NumberFmtError::ParseInvalidDecimalSep)
    );
}

#[test]
fn tokenizer_refuses_a_sign_in_the_fraction() {
    assert_eq!(parse_tokens("0.0-"), Err(NumberFmtError::ParseInvalidSign));
    assert_eq!(parse_tokens("0.+0"), Err(NumberFmtError::ParseInvalidSign));
}

#[test]
fn tokenizer_refuses_a_second_exponent() {
    assert_eq!(parse_tokens("0e0e0"), Err(NumberFmtError::ParseInvalidExp));
    assert_eq!(parse_tokens("0E0e0"), Err(NumberFmtError::ParseInvalidExp));
}

#[test]
fn tokenizer_reports_the_first_error() {
    assert_eq!(parse_tokens("0.0-x"), Err(NumberFmtError::ParseInvalidSign));
    assert_eq!(parse_tokens("x0.0-"), Err(NumberFmtError::ParseUnescaped));
}

#[test]
fn compiler_refuses_repeated_signs() {
    assert_eq!(
        NumberFormat::new("--0").err(),
        Some(NumberFmtError::ParseInvalidSign)
    );
    assert_eq!(
        NumberFormat::new("-0+").err(),
        Some(NumberFmtError::ParseInvalidSign)
    );
    assert_eq!(
        NumberFormat::new("0e--0").err(),
        Some(NumberFmtError::ParseInvalidExpSign)
    );
    assert_eq!(
        NumberFormat::new("0e+0-").err(),
        Some(NumberFmtError::ParseInvalidExpSign)
    );
}

#[test]
fn compiler_refuses_repeated_tokens_given_directly() {
    let sym = NumberSymbols::new();
    assert_eq!(
        NumberFormat::news_tok(vec![Token::DecimalSep, Token::DecimalSepAlways], sym).err(),
        Some(NumberFmtError::ParseInvalidDecimalSep)
    );
    assert_eq!(
        NumberFormat::news_tok(vec![Token::ExponentLower, Token::ExponentUpper], sym).err(),
        Some(NumberFmtError::ParseInvalidExp)
    );
    assert_eq!(
        NumberFormat::news_tok(
            vec![
                Token::SignExp,
                Token::ExponentLower,
                Token::SignInt,
                Token::ExponentLower,
                Token::SignInt
            ],
            sym
        )
        .err(),
        Some(NumberFmtError::ParseInvalidExp)
    );
}

#[test]
fn compiler_counts_integer_digits_from_the_right() {
    let format = NumberFormat::new("#,##0.00").unwrap();
    assert_eq!(
        format.tokens(),
        &vec![
            Token::Numeric(Mode::Integer, 3, false),
            Token::GroupingSep(3, true),
            Token::Numeric(Mode::Integer, 2, true),
            Token::Numeric(Mode::Integer, 1, true),
            Token::Digit0(Mode::Integer, 0),
            Token::DecimalSep,
            Token::Digit0(Mode::Fraction, 0),
            Token::Digit0(Mode::Fraction, 1),
        ]
    );
    assert_eq!(format.len_int(), 4);
    assert_eq!(format.len_frac(), 2);
    assert_eq!(format.len_exp(), 0);
    assert_eq!(format.min_int_sign(), 1);
    assert_eq!(format.min_exp_sign(), 0);
    assert!(format.has_frac_0());
    assert!(!format.has_exp());
    assert!(!format.has_exp_0());
}

#[test]
fn compiler_marks_no_sign_place_beside_a_sign_token() {
    let format = NumberFormat::new("-#,##9").unwrap();
    assert_eq!(
        format.tokens(),
        &vec![
            Token::SignInt,
            Token::Numeric(Mode::Integer, 3, false),
            Token::GroupingSep(3, false),
            Token::Numeric(Mode::Integer, 2, false),
            Token::Numeric(Mode::Integer, 1, false),
            Token::Digit(Mode::Integer, 0),
        ]
    );
    assert_eq!(format.min_int_sign(), 1);
}

#[test]
fn compiler_lets_a_numeric_beside_a_group_hold_the_sign_without_grouping() {
    let mut sym = NumberSymbols::new();
    sym.decimal_grp = None;
    let format = NumberFormat::news("#,#", sym).unwrap();
    assert_eq!(
        format.tokens(),
        &vec![
            Token::Numeric(Mode::Integer, 1, true),
            Token::GroupingSep(1, true),
            Token::Numeric(Mode::Integer, 0, true),
        ]
    );
}

#[test]
fn compiler_lets_every_grouping_separator_hold_the_sign() {
    let format = NumberFormat::new("#,,# ,#").unwrap();
    assert_eq!(
        format.tokens(),
        &vec![
            Token::Numeric(Mode::Integer, 2, false),
            Token::GroupingSep(2, true),
            Token::GroupingSep(2, true),
            Token::Numeric(Mode::Integer, 1, true),
            Token::Separator(' '),
            Token::GroupingSep(1, true),
            Token::Numeric(Mode::Integer, 0, true),
        ]
    );
}

#[test]
fn compiler_keeps_the_sign_off_a_numeric_directly_left_of_a_grouping_separator() {
    let tokens = NumberFormat::new("##,#\\x#,#").unwrap().tokens().clone();
    assert_eq!(
        tokens,
        vec![
            Token::Numeric(Mode::Integer, 4, true),
            Token::Numeric(Mode::Integer, 3, false),
            Token::GroupingSep(3, true),
            Token::Numeric(Mode::Integer, 2, true),
            Token::Separator('x'),
            Token::Numeric(Mode::Integer, 1, false),
            Token::GroupingSep(1, true),
            Token::Numeric(Mode::Integer, 0, true),
        ]
    );
}

#[test]
fn compiler_lets_no_token_hold_the_sign_beside_a_sign_token() {
    for pattern in ["-#,###.##e##", "#,###+.##e##"] {
        let format = NumberFormat::new(pattern).unwrap();
        for token in format.tokens() {
            match token {
                Token::Numeric(Mode::Integer, _, can) => assert!(!can),
                Token::GroupingSep(_, can) => assert!(!can),
                Token::Numeric(Mode::Fraction, _, can) => assert!(!can),
                Token::Numeric(Mode::Exponent, _, can) => assert!(*can),
                _ => {}
            }
        }
    }
    let format = NumberFormat::new("#,###.##e-##").unwrap();
    for token in format.tokens() {
        match token {
            Token::GroupingSep(_, can) => assert!(*can),
            Token::Numeric(Mode::Fraction, _, can) => assert!(!can),
            Token::Numeric(Mode::Exponent, _, can) => assert!(!can),
            _ => {}
        }
    }
}

#[test]
fn compiler_derives_the_exponent() {
    let format = NumberFormat::new("0.###e#90").unwrap();
    assert_eq!(
        format.tokens(),
        &vec![
            Token::Digit0(Mode::Integer, 0),
            Token::DecimalSep,
            Token::Numeric(Mode::Fraction, 0, false),
            Token::Numeric(Mode::Fraction, 1, false),
            Token::Numeric(Mode::Fraction, 2, false),
            Token::ExponentLower,
            Token::Numeric(Mode::Exponent, 2, true),
            Token::Digit(Mode::Exponent, 1),
            Token::Digit0(Mode::Exponent, 0),
        ]
    );
    assert!(format.has_exp());
    assert!(format.has_exp_0());
    assert!(!format.has_frac_0());
    assert_eq!(format.len_exp(), 3);
    assert_eq!(format.len_frac(), 3);
    assert_eq!(format.min_exp_sign(), 1);
    assert_eq!(format.min_int_sign(), 1);
}

#[test]
fn compiler_sets_the_least_exponent_sign_place_by_the_leftmost_fixed_digit() {
    assert_eq!(NumberFormat::new("0e000").unwrap().min_exp_sign(), 3);
    assert_eq!(NumberFormat::new("0e999").unwrap().min_exp_sign(), 2);
    assert_eq!(NumberFormat::new("0e#09").unwrap().min_exp_sign(), 2);
    assert_eq!(NumberFormat::new("0e###").unwrap().min_exp_sign(), 0);
    assert_eq!(NumberFormat::new("0e-##").unwrap().tokens()[3], Token::Numeric(Mode::Exponent, 1, false));
}

#[test]
fn compiler_ignores_indices_given_with_the_tokens() {
    let given = vec![
        Token::Numeric(Mode::Integer, 7, false),
        Token::Digit0(Mode::Integer, 9),
        Token::DecimalSep,
        Token::Numeric(Mode::Fraction, 5, true),
    ];
    let format = NumberFormat::news_tok(given, NumberSymbols::new()).unwrap();
    assert_eq!(
        format.tokens(),
        &vec![
            Token::Numeric(Mode::Integer, 1, true),
            Token::Digit0(Mode::Integer, 0),
            Token::DecimalSep,
            Token::Numeric(Mode::Fraction, 0, false),
        ]
    );
}

#[test]
fn pattern_is_shown_by_its_mask_characters() {
    assert_eq!(
        NumberFormat::new("-#,##0.00e+00$").unwrap().to_string(),
        "-#,##0.00e+00$"
    );
    assert_eq!(NumberFormat::new("9:9E-9").unwrap().to_string(), "9:9E-9");
    assert_eq!(NumberFormat::new("+0").unwrap().to_string(), "-0");
    assert_eq!(NumberFormat::new("0 \\x€").unwrap().to_string(), "0\\  \\ x€");
    assert_eq!(NumberFormat::default().to_string(), "");
}

#[test]
fn default_pattern_is_empty() {
    let format = NumberFormat::default();
    assert_eq!(format.tokens().len(), 0);
    assert_eq!(format.sym(), &NumberSymbols::new());
    assert_eq!(format.fmt(5), Err(NumberFmtError::FmtLenInt));
}
