use format_num_pattern::symbols::{first_opt, first_or, CURRENCY_CAPACITY};
use format_num_pattern::{CurrencySym, NumberFmtError, NumberSymbols};

#[test]
fn default_symbols_are_the_plain_ones() {
    let sym = NumberSymbols::new();
    assert_eq!(sym.decimal_sep, '.');
    assert_eq!(sym.decimal_grp, Some(','));
    assert_eq!(sym.negative_sym, '-');
    assert_eq!(sym.positive_sym, ' ');
    assert_eq!(sym.exponent_upper_sym, 'E');
    assert_eq!(sym.exponent_lower_sym, 'e');
    assert_eq!(sym.currency_sym.as_str(), "$");
    assert_eq!(NumberSymbols::default(), sym);
}

#[test]
fn numeric_symbols_take_the_first_characters() {
    let sym = NumberSymbols::numeric_from(",", ".");
    assert_eq!(sym.decimal_sep, ',');
    assert_eq!(sym.decimal_grp, Some('.'));
    assert_eq!(sym.negative_sym, '-');
    assert_eq!(sym.currency_sym.as_str(), "$");
    let sym = NumberSymbols::numeric_from("", "");
    assert_eq!(sym.decimal_sep, '.');
    assert_eq!(sym.decimal_grp, None);
    let sym = NumberSymbols::numeric_from("٫x", "\u{202f}y");
    assert_eq!(sym.decimal_sep, '٫');
    assert_eq!(sym.decimal_grp, Some('\u{202f}'));
}

#[test]
fn monetary_symbols_take_signs_and_currency() {
    let sym = NumberSymbols::monetary_from(",", ".", "−", "+", "€");
    assert_eq!(sym.decimal_sep, ',');
    assert_eq!(sym.decimal_grp, Some('.'));
    assert_eq!(sym.negative_sym, '−');
    assert_eq!(sym.positive_sym, '+');
    assert_eq!(sym.exponent_upper_sym, 'E');
    assert_eq!(sym.exponent_lower_sym, 'e');
    assert_eq!(sym.currency_sym.as_str(), "€");
    let sym = NumberSymbols::monetary_from("", "", "", "", "EUR ");
    assert_eq!(sym.decimal_sep, '.');
    assert_eq!(sym.decimal_grp, None);
    assert_eq!(sym.negative_sym, '-');
    assert_eq!(sym.positive_sym, ' ');
    assert_eq!(sym.currency_sym.as_str(), "EUR ");
}

#[test]
fn first_character_or_default() {
    assert_eq!(first_or("abc", 'x'), 'a');
    assert_eq!(first_or("", 'x'), 'x');
    assert_eq!(first_or("€uro", 'x'), '€');
    assert_eq!(first_opt("abc"), Some('a'));
    assert_eq!(first_opt(""), None);
}

#[test]
fn currency_symbol_keeps_its_text() {
    let sym = CurrencySym::new("USD");
    assert_eq!(sym.as_str(), "USD");
    assert_eq!(sym.len(), 3);
    assert!(!sym.is_empty());
    let copy = sym;
    assert_eq!(copy, sym);
    assert_ne!(CurrencySym::new("USD"), CurrencySym::new("US"));
}

#[test]
fn currency_symbol_counts_bytes() {
    let sym = CurrencySym::new("€");
    assert_eq!(sym.as_str(), "€");
    assert_eq!(sym.len(), 3);
    let sym = CurrencySym::new("");
    assert_eq!(sym.as_str(), "");
    assert_eq!(sym.len(), 0);
    assert!(sym.is_empty());
}

#[test]
fn currency_symbol_holds_sixteen_bytes() {
    assert_eq!(CURRENCY_CAPACITY, 16);
    let sym = CurrencySym::new("0123456789abcdef");
    assert_eq!(sym.as_str(), "0123456789abcdef");
    assert_eq!(sym.len(), 16);
    let sym = CurrencySym::new("€€€€€x");
    assert_eq!(sym.as_str(), "€€€€€x");
    assert_eq!(sym.len(), 16);
}

#[test]
fn errors_are_shown_by_name() {
    let all = [
        (NumberFmtError::Fmt, "Fmt"),
        (NumberFmtError::FmtLenInt, "FmtLenInt"),
        (NumberFmtError::FmtLenExp, "FmtLenExp"),
        (NumberFmtError::FmtNoSign, "FmtNoSign"),
        (NumberFmtError::FmtNoExpSign, "FmtNoExpSign"),
        (NumberFmtError::Parse, "Parse"),
        (NumberFmtError::ParseInvalidDecimalSep, "ParseInvalidDecimalSep"),
        (NumberFmtError::ParseInvalidSign, "ParseInvalidSign"),
        (NumberFmtError::ParseInvalidExp, "ParseInvalidExp"),
        (NumberFmtError::ParseInvalidExpSign, "ParseInvalidExpSign"),
        (NumberFmtError::ParseUnescaped, "ParseUnescaped"),
        (NumberFmtError::ParseInvalidDigit, "ParseInvalidDigit"),
        (NumberFmtError::ParseInvalidGroupingSep, "ParseInvalidGroupingSep"),
        (NumberFmtError::ParseInvalidCurrency, "ParseInvalidCurrency"),
        (NumberFmtError::ParseInvalidSeparator, "ParseInvalidSeparator"),
    ];
    for (e, name) in all {
        assert_eq!(e.to_string(), name);
        assert_eq!(e.as_str(), name);
        assert_eq!(format!("{:?}", e), name);
    }
}
