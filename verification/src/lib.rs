//! Locale-aware formatting of numbers with picture patterns, and the exact
//! inverse: parsing text that was written with such a pattern.
//!
//! A pattern such as `###,##0.00` is compiled once into a [`NumberFormat`]
//! and then used to render any number of values, or to read them back.

/// Rendering, reading back and loose reading, and formatting and parsing of
/// numbers on top of them.
pub mod codec;
/// The error kinds.
pub mod error;
/// What a compiled pattern is, as a mathematical value.
pub mod model;
/// The standard conversions between numbers and plain decimal text.
pub mod native;
/// Formatting and parsing as methods of numbers and text.
pub mod number;
/// The compiled pattern and its compiler.
pub mod pattern;
/// Plain decimal text and its parts.
pub mod raw;
/// What rendering writes.
pub mod render;
/// The symbols a number is written with.
pub mod symbols;
/// Characters, strings and vectors.
pub mod text;
/// The tokens of a pattern and the tokenizer.
pub mod token;
/// What reading gives.
pub mod unmap;

/// What holds of rendering for every pattern and number.
pub mod laws;
/// How often the minus sign is written.
pub mod minus;
/// Round trip: reading back what was rendered.
pub mod roundtrip;
/// For the round trip: what the tokens read, part by part.
pub mod collected;
/// For the round trip: a pattern with one place for the sign at each index.
pub mod placed;
/// For the round trip: what a single token reads.
pub mod readback;
/// For the round trip: the sections of a pattern.
pub mod sections;
/// For the round trip: the exponent that is shifted to the left.
pub mod shifted;

pub use error::NumberFmtError;
pub use number::{FormatNumber, FormattedNumber, ParseNumber, RefFormattedNumber};
pub use pattern::NumberFormat;
pub use symbols::{CurrencySym, NumberSymbols, Symbols};

use codec::{formats_as, parses_back_as};
use model::compile_pattern;
use pattern::{formats_to_string, formats_to_text};
use std::fmt::{Display, LowerExp};
use std::str::FromStr;
use symbols::default_symbols;
use unmap::clean_text;
use vstd::prelude::*;
use vstd::string::StringExecFns;

verus! {

/// Formats a number with a pattern and the default symbols.
pub fn format<Number: LowerExp + Display>(number: Number, pattern: &str) -> (r: Result<
    String,
    NumberFmtError,
>)
    ensures
        match compile_pattern(pattern@, default_symbols()) {
            Ok(f) => formats_to_string(&number, f, default_symbols(), r),
            Err(e) => r == Err::<String, NumberFmtError>(e),
        },
{
    match NumberFormat::new(pattern) {
        Ok(format) => format.fmt(number),
        Err(e) => Err(e),
    }
}

/// Formats a number with a pattern and the default symbols, and appends the
/// result to `out`.
pub fn format_to<Number: LowerExp + Display>(number: Number, pattern: &str, out: &mut String) -> (r:
    Result<(), NumberFmtError>)
    ensures
        match compile_pattern(pattern@, default_symbols()) {
            Ok(f) => formats_as(&number, f, default_symbols(), r, old(out)@, final(out)@),
            Err(e) => r == Err::<(), NumberFmtError>(e) && final(out)@ == old(out)@,
        },
{
    match NumberFormat::new(pattern) {
        Ok(format) => format.fmt_to(number, out),
        Err(e) => Err(e),
    }
}

/// Formats a number with a pattern, which is compiled with the default
/// symbols, and writes it with the symbols `sym`.
pub fn formats<Number: LowerExp + Display>(
    number: Number,
    pattern: &str,
    sym: &NumberSymbols,
) -> (r: Result<String, NumberFmtError>)
    ensures
        match compile_pattern(pattern@, default_symbols()) {
            Ok(f) => formats_to_string(&number, f, sym@, r),
            Err(e) => r == Err::<String, NumberFmtError>(e),
        },
{
    match NumberFormat::new(pattern) {
        Ok(format) => {
            let mut out = String::new();
            let ghost given = number;
            let status = codec::format_to(number, &format, sym, &mut out);
            proof {
                assert(formats_as(&given, format@, sym@, status, Seq::empty(), out@));
            }
            match status {
                Ok(_) => Ok(out),
                Err(e) => Err(e),
            }
        },
        Err(e) => Err(e),
    }
}

/// Formats a number with a pattern, which is compiled with the default
/// symbols, writes it with the symbols `sym` and appends the result to
/// `out`.
pub fn formats_to<Number: LowerExp + Display>(
    number: Number,
    pattern: &str,
    sym: &NumberSymbols,
    out: &mut String,
) -> (r: Result<(), NumberFmtError>)
    ensures
        match compile_pattern(pattern@, default_symbols()) {
            Ok(f) => formats_as(&number, f, sym@, r, old(out)@, final(out)@),
            Err(e) => r == Err::<(), NumberFmtError>(e) && final(out)@ == old(out)@,
        },
{
    match NumberFormat::new(pattern) {
        Ok(format) => codec::format_to(number, &format, sym, out),
        Err(e) => Err(e),
    }
}

/// Formats a number with a compiled pattern. There is no way to return an
/// error here: where formatting fails, the result is the name of the error
/// and nothing of the number.
pub fn fmt<Number: LowerExp + Display>(number: Number, format: &NumberFormat) -> (r: String)
    ensures
        formats_to_text(&number, format@, format@.sym, r@),
{
    format.fmt_u(number)
}

/// Formats a number with a compiled pattern and appends the result to
/// `out`. There is no way to return an error here: where formatting fails,
/// the name of the error is appended and nothing of the number.
pub fn fmt_to<Number: LowerExp + Display>(number: Number, format: &NumberFormat, out: &mut String)
    ensures
        exists|shown: Seq<char>| #[trigger]
            formats_to_text(&number, format@, format@.sym, shown) && final(out)@ == old(out)@
                + shown,
{
    let shown = format.fmt_u(number);
    out.append(shown.as_str());
}

/// Parses a number from text whose layout is not known, with the symbols
/// `sym`.
pub fn parse_sym<F: FromStr>(s: &str, sym: &NumberSymbols) -> (r: Result<F, NumberFmtError>)
    ensures
        native::parses_as::<F>(clean_text(s@, sym@, false), r),
        r is Ok || r == Err::<F, NumberFmtError>(NumberFmtError::Parse),
{
    codec::parse_sym(s, sym)
}

/// Parses a number from text that was written with the compiled pattern.
pub fn parse_fmt<F: FromStr>(s: &str, fmt: &NumberFormat) -> (r: Result<F, NumberFmtError>)
    ensures
        parses_back_as::<F>(s@, fmt@, fmt@.sym, r),
{
    fmt.parse(s)
}

/// Parses a number from text that was written with a pattern, which is
/// compiled with the default symbols, and with the symbols `sym`.
pub fn parse_format<F: FromStr>(s: &str, pattern: &str, sym: &NumberSymbols) -> (r: Result<
    F,
    NumberFmtError,
>)
    ensures
        match compile_pattern(pattern@, default_symbols()) {
            Ok(f) => parses_back_as::<F>(s@, f, sym@, r),
            Err(e) => r == Err::<F, NumberFmtError>(e),
        },
{
    match NumberFormat::new(pattern) {
        Ok(format) => codec::parse_fmt(s, &format, sym),
        Err(e) => Err(e),
    }
}

} // verus!
