//! The error kinds shared by pattern compilation, rendering and parsing.

use vstd::prelude::*;
use vstd::string::StringExecFns;

verus! {

/// Everything that can go wrong while compiling a pattern, rendering a number
/// or parsing formatted text.
#[derive(Debug, PartialEq, Eq, Clone, Copy, Structural)]
pub enum NumberFmtError {
    /// The native number-to-text conversion failed.
    Fmt,
    /// The number has more integer digits than the pattern.
    FmtLenInt,
    /// The exponent has more digits than the pattern.
    FmtLenExp,
    /// The number is negative, but the pattern has no place for the sign.
    FmtNoSign,
    /// The exponent is negative, but the pattern has no place for the sign.
    FmtNoExpSign,
    /// The native text-to-number conversion failed.
    Parse,
    /// Misplaced decimal separator in a pattern, or wrong glyph when parsing.
    ParseInvalidDecimalSep,
    /// Misplaced sign in a pattern, or wrong glyph when parsing.
    ParseInvalidSign,
    /// Misplaced exponent in a pattern, or wrong glyph when parsing.
    ParseInvalidExp,
    /// Repeated exponent sign in a pattern, or wrong glyph when parsing.
    ParseInvalidExpSign,
    /// An ASCII character in a pattern that is no mask character and not escaped.
    ParseUnescaped,
    /// No digit where the pattern wants one.
    ParseInvalidDigit,
    /// Wrong glyph at a grouping separator.
    ParseInvalidGroupingSep,
    /// The text does not hold the currency symbol where the pattern wants it.
    ParseInvalidCurrency,
    /// The text differs from a literal character of the pattern.
    ParseInvalidSeparator,
}

impl NumberFmtError {
    /// The name of the variant, as text.
    pub open spec fn name(self) -> Seq<char> {
        match self {
            NumberFmtError::Fmt => "Fmt"@,
            NumberFmtError::FmtLenInt => "FmtLenInt"@,
            NumberFmtError::FmtLenExp => "FmtLenExp"@,
            NumberFmtError::FmtNoSign => "FmtNoSign"@,
            NumberFmtError::FmtNoExpSign => "FmtNoExpSign"@,
            NumberFmtError::Parse => "Parse"@,
            NumberFmtError::ParseInvalidDecimalSep => "ParseInvalidDecimalSep"@,
            NumberFmtError::ParseInvalidSign => "ParseInvalidSign"@,
            NumberFmtError::ParseInvalidExp => "ParseInvalidExp"@,
            NumberFmtError::ParseInvalidExpSign => "ParseInvalidExpSign"@,
            NumberFmtError::ParseUnescaped => "ParseUnescaped"@,
            NumberFmtError::ParseInvalidDigit => "ParseInvalidDigit"@,
            NumberFmtError::ParseInvalidGroupingSep => "ParseInvalidGroupingSep"@,
            NumberFmtError::ParseInvalidCurrency => "ParseInvalidCurrency"@,
            NumberFmtError::ParseInvalidSeparator => "ParseInvalidSeparator"@,
        }
    }

    /// The name of the variant as a static string slice.
    pub fn as_str(&self) -> (s: &'static str)
        ensures
            s@ == self.name(),
    {
        match self {
            NumberFmtError::Fmt => "Fmt",
            NumberFmtError::FmtLenInt => "FmtLenInt",
            NumberFmtError::FmtLenExp => "FmtLenExp",
            NumberFmtError::FmtNoSign => "FmtNoSign",
            NumberFmtError::FmtNoExpSign => "FmtNoExpSign",
            NumberFmtError::Parse => "Parse",
            NumberFmtError::ParseInvalidDecimalSep => "ParseInvalidDecimalSep",
            NumberFmtError::ParseInvalidSign => "ParseInvalidSign",
            NumberFmtError::ParseInvalidExp => "ParseInvalidExp",
            NumberFmtError::ParseInvalidExpSign => "ParseInvalidExpSign",
            NumberFmtError::ParseUnescaped => "ParseUnescaped",
            NumberFmtError::ParseInvalidDigit => "ParseInvalidDigit",
            NumberFmtError::ParseInvalidGroupingSep => "ParseInvalidGroupingSep",
            NumberFmtError::ParseInvalidCurrency => "ParseInvalidCurrency",
            NumberFmtError::ParseInvalidSeparator => "ParseInvalidSeparator",
        }
    }

    /// The text shown for the error: the name of its variant.
    pub fn to_string(&self) -> (s: String)
        ensures
            s@ == self.name(),
    {
        String::from_str(self.as_str())
    }
}

} // verus!
