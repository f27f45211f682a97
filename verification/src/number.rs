//! Formatting and parsing as methods of the numbers and of the text.

use std::fmt::{Display, LowerExp};
use rust_decimal::Decimal;
use std::str::FromStr;
use vstd::prelude::*;
use crate::codec::{format_to, formats_as, parse_fmt, parse_sym};
use crate::error::NumberFmtError;
use crate::model::{compile_pattern, FormatModel};
use crate::pattern::{formats_to_string, NumberFormat};
use crate::symbols::{default_symbols, NumberSymbols, Symbols};
use crate::unmap::clean_text;

verus! {

/// Parsing a number from text.
pub trait ParseNumber {
    /// The characters of the text.
    spec fn text(&self) -> Seq<char>;

    /// Parses a number from text whose layout is not known.
    fn parse_sym<F: FromStr>(&self, sym: &NumberSymbols) -> (r: Result<F, NumberFmtError>)
        ensures
            crate::native::parses_as::<F>(clean_text(self.text(), sym@, false), r),
            r is Ok || r == Err::<F, NumberFmtError>(NumberFmtError::Parse),
    ;

    /// Parses a number from text that was written with the compiled pattern.
    fn parse_fmt<F: FromStr>(&self, fmt: &NumberFormat) -> (r: Result<F, NumberFmtError>)
        ensures
            crate::codec::parses_back_as::<F>(self.text(), fmt@, fmt@.sym, r),
    ;
}

impl ParseNumber for &str {
    open spec fn text(&self) -> Seq<char> {
        (*self)@
    }

    fn parse_sym<F: FromStr>(&self, sym: &NumberSymbols) -> (r: Result<F, NumberFmtError>) {
        parse_sym(*self, sym)
    }

    fn parse_fmt<F: FromStr>(&self, fmt: &NumberFormat) -> (r: Result<F, NumberFmtError>) {
        parse_fmt(*self, fmt, fmt.sym())
    }
}

/// A number together with the pattern to write it with, which it owns, and
/// the symbols.
#[derive(Debug)]
pub struct FormattedNumber<'a, Number> {
    num: Number,
    format: NumberFormat,
    sym: &'a NumberSymbols,
}

/// A number together with the compiled pattern to write it with.
#[derive(Debug)]
pub struct RefFormattedNumber<'a, Number> {
    num: Number,
    format: &'a NumberFormat,
}

impl<'a, Number> FormattedNumber<'a, Number> {
    /// The number.
    pub closed spec fn number(&self) -> Number {
        self.num
    }

    /// The compiled pattern.
    pub closed spec fn pattern(&self) -> FormatModel {
        self.format@
    }

    /// The symbols the number is written with.
    pub closed spec fn symbols(&self) -> Symbols {
        self.sym@
    }

    /// The number `num` with the pattern `pattern`, compiled with the
    /// default symbols, to be written with the symbols `sym`.
    pub fn new(num: Number, pattern: &str, sym: &'a NumberSymbols) -> (r: Result<
        Self,
        NumberFmtError,
    >)
        ensures
            match compile_pattern(pattern@, default_symbols()) {
                Ok(f) => {
                    &&& r is Ok
                    &&& r->Ok_0.number() == num
                    &&& r->Ok_0.pattern() == f
                    &&& r->Ok_0.symbols() == sym@
                },
                Err(e) => r == Err::<Self, NumberFmtError>(e),
            },
    {
        match NumberFormat::new(pattern) {
            Ok(format) => Ok(FormattedNumber { num, format, sym }),
            Err(e) => Err(e),
        }
    }
}

impl<'a, Number: Copy + LowerExp + Display> FormattedNumber<'a, Number> {
    /// The formatted number as text.
    pub fn to_string(&self) -> (r: Result<String, NumberFmtError>)
        ensures
            formats_to_string(&self.number(), self.pattern(), self.symbols(), r),
    {
        let mut out = String::new();
        let status = format_to(self.num, &self.format, self.sym, &mut out);
        proof {
            assert(formats_as(
                &self.number(),
                self.pattern(),
                self.symbols(),
                status,
                Seq::empty(),
                out@,
            ));
        }
        match status {
            Ok(_) => Ok(out),
            Err(e) => Err(e),
        }
    }
}

impl<'a, Number> RefFormattedNumber<'a, Number> {
    /// The number.
    pub closed spec fn number(&self) -> Number {
        self.num
    }

    /// The compiled pattern.
    pub closed spec fn pattern(&self) -> FormatModel {
        self.format@
    }

    /// The number `num` with the compiled pattern `format`.
    pub fn new(num: Number, format: &'a NumberFormat) -> (r: Self)
        ensures
            r.number() == num,
            r.pattern() == format@,
    {
        RefFormattedNumber { num, format }
    }
}

impl<'a, Number: Copy + LowerExp + Display> RefFormattedNumber<'a, Number> {
    /// The formatted number as text.
    pub fn to_string(&self) -> (r: Result<String, NumberFmtError>)
        ensures
            formats_to_string(&self.number(), self.pattern(), self.pattern().sym, r),
    {
        self.format.fmt(self.num)
    }
}

/// Formatting as a method of the number.
pub trait FormatNumber where Self: Copy + Display {
    /// The number with a pattern, which is compiled with the default
    /// symbols, to be written with the symbols `sym`.
    fn format<'a>(&self, pattern: &'a str, sym: &'a NumberSymbols) -> (r: Result<
        FormattedNumber<'a, Self>,
        NumberFmtError,
    >)
        ensures
            match compile_pattern(pattern@, default_symbols()) {
                Ok(f) => {
                    &&& r is Ok
                    &&& r->Ok_0.number() == *self
                    &&& r->Ok_0.pattern() == f
                    &&& r->Ok_0.symbols() == sym@
                },
                Err(e) => r == Err::<FormattedNumber<'a, Self>, NumberFmtError>(e),
            },
    ;

    /// The number with a compiled pattern.
    fn fmt<'a>(&self, format: &'a NumberFormat) -> (r: RefFormattedNumber<'a, Self>)
        ensures
            r.number() == *self,
            r.pattern() == format@,
    ;
}

/// `rust_decimal::Decimal`, a decimal number of an outside crate. Nothing is
/// known of its value here; it is handed on to its own conversion to text.
#[verifier::external_type_specification]
#[verifier::external_body]
pub struct ExDecimal(Decimal);

impl FormatNumber for u8 {
    fn format<'a>(&self, pattern: &'a str, sym: &'a NumberSymbols) -> (r: Result<
        FormattedNumber<'a, Self>,
        NumberFmtError,
    >) {
        FormattedNumber::new(*self, pattern, sym)
    }

    fn fmt<'a>(&self, format: &'a NumberFormat) -> (r: RefFormattedNumber<'a, Self>) {
        RefFormattedNumber::new(*self, format)
    }
}

impl FormatNumber for u16 {
    fn format<'a>(&self, pattern: &'a str, sym: &'a NumberSymbols) -> (r: Result<
        FormattedNumber<'a, Self>,
        NumberFmtError,
    >) {
        FormattedNumber::new(*self, pattern, sym)
    }

    fn fmt<'a>(&self, format: &'a NumberFormat) -> (r: RefFormattedNumber<'a, Self>) {
        RefFormattedNumber::new(*self, format)
    }
}

impl FormatNumber for u32 {
    fn format<'a>(&self, pattern: &'a str, sym: &'a NumberSymbols) -> (r: Result<
        FormattedNumber<'a, Self>,
        NumberFmtError,
    >) {
        FormattedNumber::new(*self, pattern, sym)
    }

    fn fmt<'a>(&self, format: &'a NumberFormat) -> (r: RefFormattedNumber<'a, Self>) {
        RefFormattedNumber::new(*self, format)
    }
}

impl FormatNumber for u64 {
    fn format<'a>(&self, pattern: &'a str, sym: &'a NumberSymbols) -> (r: Result<
        FormattedNumber<'a, Self>,
        NumberFmtError,
    >) {
        FormattedNumber::new(*self, pattern, sym)
    }

    fn fmt<'a>(&self, format: &'a NumberFormat) -> (r: RefFormattedNumber<'a, Self>) {
        RefFormattedNumber::new(*self, format)
    }
}

impl FormatNumber for u128 {
    fn format<'a>(&self, pattern: &'a str, sym: &'a NumberSymbols) -> (r: Result<
        FormattedNumber<'a, Self>,
        NumberFmtError,
    >) {
        FormattedNumber::new(*self, pattern, sym)
    }

    fn fmt<'a>(&self, format: &'a NumberFormat) -> (r: RefFormattedNumber<'a, Self>) {
        RefFormattedNumber::new(*self, format)
    }
}

impl FormatNumber for usize {
    fn format<'a>(&self, pattern: &'a str, sym: &'a NumberSymbols) -> (r: Result<
        FormattedNumber<'a, Self>,
        NumberFmtError,
    >) {
        FormattedNumber::new(*self, pattern, sym)
    }

    fn fmt<'a>(&self, format: &'a NumberFormat) -> (r: RefFormattedNumber<'a, Self>) {
        RefFormattedNumber::new(*self, format)
    }
}

impl FormatNumber for i8 {
    fn format<'a>(&self, pattern: &'a str, sym: &'a NumberSymbols) -> (r: Result<
        FormattedNumber<'a, Self>,
        NumberFmtError,
    >) {
        FormattedNumber::new(*self, pattern, sym)
    }

    fn fmt<'a>(&self, format: &'a NumberFormat) -> (r: RefFormattedNumber<'a, Self>) {
        RefFormattedNumber::new(*self, format)
    }
}

impl FormatNumber for i16 {
    fn format<'a>(&self, pattern: &'a str, sym: &'a NumberSymbols) -> (r: Result<
        FormattedNumber<'a, Self>,
        NumberFmtError,
    >) {
        FormattedNumber::new(*self, pattern, sym)
    }

    fn fmt<'a>(&self, format: &'a NumberFormat) -> (r: RefFormattedNumber<'a, Self>) {
        RefFormattedNumber::new(*self, format)
    }
}

impl FormatNumber for i32 {
    fn format<'a>(&self, pattern: &'a str, sym: &'a NumberSymbols) -> (r: Result<
        FormattedNumber<'a, Self>,
        NumberFmtError,
    >) {
        FormattedNumber::new(*self, pattern, sym)
    }

    fn fmt<'a>(&self, format: &'a NumberFormat) -> (r: RefFormattedNumber<'a, Self>) {
        RefFormattedNumber::new(*self, format)
    }
}

impl FormatNumber for i64 {
    fn format<'a>(&self, pattern: &'a str, sym: &'a NumberSymbols) -> (r: Result<
        FormattedNumber<'a, Self>,
        NumberFmtError,
    >) {
        FormattedNumber::new(*self, pattern, sym)
    }

    fn fmt<'a>(&self, format: &'a NumberFormat) -> (r: RefFormattedNumber<'a, Self>) {
        RefFormattedNumber::new(*self, format)
    }
}

impl FormatNumber for i128 {
    fn format<'a>(&self, pattern: &'a str, sym: &'a NumberSymbols) -> (r: Result<
        FormattedNumber<'a, Self>,
        NumberFmtError,
    >) {
        FormattedNumber::new(*self, pattern, sym)
    }

    fn fmt<'a>(&self, format: &'a NumberFormat) -> (r: RefFormattedNumber<'a, Self>) {
        RefFormattedNumber::new(*self, format)
    }
}

impl FormatNumber for isize {
    fn format<'a>(&self, pattern: &'a str, sym: &'a NumberSymbols) -> (r: Result<
        FormattedNumber<'a, Self>,
        NumberFmtError,
    >) {
        FormattedNumber::new(*self, pattern, sym)
    }

    fn fmt<'a>(&self, format: &'a NumberFormat) -> (r: RefFormattedNumber<'a, Self>) {
        RefFormattedNumber::new(*self, format)
    }
}

impl FormatNumber for Decimal {
    fn format<'a>(&self, pattern: &'a str, sym: &'a NumberSymbols) -> (r: Result<
        FormattedNumber<'a, Self>,
        NumberFmtError,
    >) {
        FormattedNumber::new(*self, pattern, sym)
    }

    fn fmt<'a>(&self, format: &'a NumberFormat) -> (r: RefFormattedNumber<'a, Self>) {
        RefFormattedNumber::new(*self, format)
    }
}

} // verus!
