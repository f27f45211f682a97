//! The tokens of a pattern and the tokenizer that reads them from the
//! pattern's text.

use vstd::prelude::*;
use crate::error::NumberFmtError;
use crate::text::to_chars;

verus! {

/// The part of a number a digit belongs to.
#[derive(Debug, Clone, Copy, PartialEq, Eq, Structural)]
pub enum Mode {
    Integer,
    Fraction,
    Exponent,
}

/// One position of a pattern.
///
/// Digit tokens hold the index of their digit within their part of the
/// number: integer and exponent digits count from the least significant
/// digit, fraction digits from the decimal separator. The tokenizer leaves
/// every index at zero and every flag unset; compiling a pattern fills them
/// in.
#[derive(Debug, Clone, Copy, PartialEq, Eq, Structural)]
pub enum Token {
    /// Mask `0`: a digit, or `0` where the number has none.
    Digit0(Mode, usize),
    /// Mask `9`: a digit, or a blank where the number has none.
    Digit(Mode, usize),
    /// Mask `#`: a digit, a blank, or the sign if the flag allows it.
    Numeric(Mode, usize, bool),
    /// Mask `-` before the exponent: the sign of the number.
    SignInt,
    /// Mask `+` before the exponent: the sign of the number as `+` or `-`.
    PlusInt,
    /// Mask `.`: decimal separator, blank without a fraction.
    DecimalSep,
    /// Mask `:`: decimal separator, always shown.
    DecimalSepAlways,
    /// Mask `,`: grouping separator, or the sign if the flag allows it.
    GroupingSep(usize, bool),
    /// Mask `E`: exponent marker.
    ExponentUpper,
    /// Mask `e`: exponent marker.
    ExponentLower,
    /// Mask `-` in the exponent: the sign of the exponent.
    SignExp,
    /// Mask `+` in the exponent: the sign of the exponent as `+` or `-`.
    PlusExp,
    /// Mask `$`: the currency symbol, however long it is.
    Currency,
    /// A character that is written as it stands.
    Separator(char),
}

/// Whether `c` is one of the first 128 characters.
pub open spec fn is_ascii_char(c: char) -> bool {
    c <= '\x7f'
}

/// What an unescaped pattern character `c` stands for while the tokenizer is
/// in part `mode` of the number. The backslash is not handled here.
pub open spec fn mask_token(c: char, mode: Mode) -> Result<Token, NumberFmtError> {
    if c == '0' {
        Ok(Token::Digit0(mode, 0))
    } else if c == '9' {
        Ok(Token::Digit(mode, 0))
    } else if c == '#' {
        Ok(Token::Numeric(mode, 0, false))
    } else if c == '.' || c == ':' {
        if mode != Mode::Integer {
            Err(NumberFmtError::ParseInvalidDecimalSep)
        } else if c == '.' {
            Ok(Token::DecimalSep)
        } else {
            Ok(Token::DecimalSepAlways)
        }
    } else if c == ',' {
        Ok(Token::GroupingSep(0, false))
    } else if c == '-' || c == '+' {
        match mode {
            Mode::Integer => Ok(if c == '-' { Token::SignInt } else { Token::PlusInt }),
            Mode::Exponent => Ok(if c == '-' { Token::SignExp } else { Token::PlusExp }),
            Mode::Fraction => Err(NumberFmtError::ParseInvalidSign),
        }
    } else if c == 'e' || c == 'E' {
        if mode == Mode::Exponent {
            Err(NumberFmtError::ParseInvalidExp)
        } else if c == 'e' {
            Ok(Token::ExponentLower)
        } else {
            Ok(Token::ExponentUpper)
        }
    } else if c == '$' {
        Ok(Token::Currency)
    } else if c == ' ' {
        Ok(Token::Separator(' '))
    } else if is_ascii_char(c) {
        Err(NumberFmtError::ParseUnescaped)
    } else {
        Ok(Token::Separator(c))
    }
}

/// The part of the number the tokenizer is in after the unescaped character
/// `c`, which it accepted in part `mode`.
pub open spec fn mode_after(c: char, mode: Mode) -> Mode {
    if c == '.' || c == ':' {
        Mode::Fraction
    } else if c == 'e' || c == 'E' {
        Mode::Exponent
    } else {
        mode
    }
}

/// `tokens` put in front of what a scan of the rest gave.
pub open spec fn prepend_tokens(
    tokens: Seq<Token>,
    rest: Result<Seq<Token>, NumberFmtError>,
) -> Result<Seq<Token>, NumberFmtError> {
    match rest {
        Ok(more) => Ok(tokens + more),
        Err(e) => Err(e),
    }
}

/// The tokens of `pattern`, read from the left in part `mode` of the number;
/// `escaped` says that the character before was a backslash. The first
/// character that is not accepted decides the error.
pub open spec fn scan_pattern(pattern: Seq<char>, mode: Mode, escaped: bool) -> Result<
    Seq<Token>,
    NumberFmtError,
>
    decreases pattern.len(),
{
    if pattern.len() == 0 {
        Ok(Seq::empty())
    } else {
        let c = pattern[0];
        let rest = pattern.drop_first();
        if escaped {
            prepend_tokens(seq![Token::Separator(c)], scan_pattern(rest, mode, false))
        } else if c == '\\' {
            scan_pattern(rest, mode, true)
        } else {
            match mask_token(c, mode) {
                Ok(t) => prepend_tokens(seq![t], scan_pattern(rest, mode_after(c, mode), false)),
                Err(e) => Err(e),
            }
        }
    }
}

/// The tokens that the text of a pattern stands for.
pub open spec fn pattern_tokens(pattern: Seq<char>) -> Result<Seq<Token>, NumberFmtError> {
    scan_pattern(pattern, Mode::Integer, false)
}

/// Putting one token and then more in front is putting all of them in front.
proof fn lemma_prepend_push(
    tokens: Seq<Token>,
    t: Token,
    rest: Result<Seq<Token>, NumberFmtError>,
)
    ensures
        prepend_tokens(tokens, prepend_tokens(seq![t], rest)) == prepend_tokens(
            tokens.push(t),
            rest,
        ),
{
    if let Ok(more) = rest {
        assert(tokens + (seq![t] + more) =~= tokens.push(t) + more);
    }
}

/// The token for the unescaped character `c` in part `mode` of the number.
fn mask_char(c: char, mode: Mode) -> (r: Result<Token, NumberFmtError>)
    ensures
        r == mask_token(c, mode),
{
    if c == '0' {
        Ok(Token::Digit0(mode, 0))
    } else if c == '9' {
        Ok(Token::Digit(mode, 0))
    } else if c == '#' {
        Ok(Token::Numeric(mode, 0, false))
    } else if c == '.' || c == ':' {
        match mode {
            Mode::Integer => Ok(if c == '.' { Token::DecimalSep } else { Token::DecimalSepAlways }),
            _ => Err(NumberFmtError::ParseInvalidDecimalSep),
        }
    } else if c == ',' {
        Ok(Token::GroupingSep(0, false))
    } else if c == '-' || c == '+' {
        match mode {
            Mode::Integer => Ok(if c == '-' { Token::SignInt } else { Token::PlusInt }),
            Mode::Exponent => Ok(if c == '-' { Token::SignExp } else { Token::PlusExp }),
            Mode::Fraction => Err(NumberFmtError::ParseInvalidSign),
        }
    } else if c == 'e' || c == 'E' {
        match mode {
            Mode::Exponent => Err(NumberFmtError::ParseInvalidExp),
            _ => Ok(if c == 'e' { Token::ExponentLower } else { Token::ExponentUpper }),
        }
    } else if c == '$' {
        Ok(Token::Currency)
    } else if c == ' ' {
        Ok(Token::Separator(' '))
    } else if c <= '\x7f' {
        Err(NumberFmtError::ParseUnescaped)
    } else {
        Ok(Token::Separator(c))
    }
}

/// Reads the tokens of a pattern.
///
/// The mask characters are `0 9 # . : , - + e E $`; a backslash makes the
/// character after it a literal, a blank and every character beyond ASCII
/// are literals as they stand, and any other character is refused.
pub fn parse_tokens(pattern: &str) -> (r: Result<Vec<Token>, NumberFmtError>)
    ensures
        match pattern_tokens(pattern@) {
            Ok(tokens) => r is Ok && r->Ok_0@ == tokens,
            Err(e) => r == Err::<Vec<Token>, NumberFmtError>(e),
        },
{
    let chars = to_chars(pattern);
    let mut tok: Vec<Token> = Vec::new();
    let mut mode = Mode::Integer;
    let mut esc = false;
    let mut i: usize = 0;
    proof {
        assert(chars@.skip(0) =~= chars@);
        if let Ok(all) = pattern_tokens(pattern@) {
            assert(Seq::<Token>::empty() + all =~= all);
        }
    }
    while i < chars.len()
        invariant
            i <= chars.len(),
            chars@ == pattern@,
            pattern_tokens(pattern@) == prepend_tokens(
                tok@,
                scan_pattern(chars@.skip(i as int), mode, esc),
            ),
        decreases chars.len() - i,
    {
        let c = chars[i];
        proof {
            assert(chars@.skip(i as int).drop_first() =~= chars@.skip(i + 1));
            assert(chars@.skip(i as int)[0] == c);
        }
        if esc {
            proof {
                lemma_prepend_push(
                    tok@,
                    Token::Separator(c),
                    scan_pattern(chars@.skip(i + 1), mode, false),
                );
            }
            esc = false;
            tok.push(Token::Separator(c));
        } else if c == '\\' {
            esc = true;
        } else {
            match mask_char(c, mode) {
                Err(e) => {
                    return Err(e);
                },
                Ok(t) => {
                    proof {
                        lemma_prepend_push(
                            tok@,
                            t,
                            scan_pattern(chars@.skip(i + 1), mode_after(c, mode), false),
                        );
                    }
                    tok.push(t);
                    if c == '.' || c == ':' {
                        mode = Mode::Fraction;
                    } else if c == 'e' || c == 'E' {
                        mode = Mode::Exponent;
                    }
                },
            }
        }
        i = i + 1;
    }
    proof {
        assert(tok@ + Seq::<Token>::empty() =~= tok@);
    }
    Ok(tok)
}

} // verus!
