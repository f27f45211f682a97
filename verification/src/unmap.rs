//! What reading formatted text gives: with a compiled pattern, token by
//! token, and without one, character by character.

use vstd::prelude::*;
use crate::error::NumberFmtError;
use crate::model::FormatModel;
use crate::symbols::Symbols;
use crate::token::{Mode, Token};

verus! {

/// Whether `c` is one of the digits `0` to `9`.
pub open spec fn is_digit(c: char) -> bool {
    '0' <= c && c <= '9'
}

/// The parts of a number that reading collects a character for.
#[derive(Debug, Clone, Copy, PartialEq, Eq, Structural)]
pub enum Slot {
    Sign,
    Int,
    Frac,
    ExpSign,
    Exp,
}

/// What reading has collected, part by part. The decimal point, once read,
/// is the first character of the fraction.
pub struct Unmapped {
    pub sign: Seq<char>,
    pub int: Seq<char>,
    pub frac: Seq<char>,
    pub exp_sign: Seq<char>,
    pub exp: Seq<char>,
}

impl Unmapped {
    /// Nothing collected yet.
    pub open spec fn empty() -> Unmapped {
        Unmapped {
            sign: Seq::empty(),
            int: Seq::empty(),
            frac: Seq::empty(),
            exp_sign: Seq::empty(),
            exp: Seq::empty(),
        }
    }

    /// The parts with `c` added to the part `slot`.
    pub open spec fn with(self, slot: Slot, c: char) -> Unmapped {
        match slot {
            Slot::Sign => Unmapped { sign: self.sign.push(c), ..self },
            Slot::Int => Unmapped { int: self.int.push(c), ..self },
            Slot::Frac => Unmapped { frac: self.frac.push(c), ..self },
            Slot::ExpSign => Unmapped { exp_sign: self.exp_sign.push(c), ..self },
            Slot::Exp => Unmapped { exp: self.exp.push(c), ..self },
        }
    }

    /// The parts with what a token read, if it read anything.
    pub open spec fn with_read(self, read: Option<(Slot, char)>) -> Unmapped {
        match read {
            Some((slot, c)) => self.with(slot, c),
            None => self,
        }
    }

    /// The plain decimal text made of the parts: sign, integer digits,
    /// fraction with its point, and the exponent behind an `e` if exponent
    /// digits were read.
    pub open spec fn text(self) -> Seq<char> {
        self.sign + self.int + self.frac + (if self.exp.len() > 0 {
            seq!['e']
        } else {
            Seq::empty()
        }) + self.exp_sign + self.exp
    }
}

/// What a digit token reads from `c`: the digit for the part `slot`; the
/// sign `-` where `sign` names the part of the sign and `c` is the negative
/// glyph; nothing from a blank where `blank` allows one, nor from the
/// positive glyph where a sign may stand.
pub open spec fn read_digit(
    c: char,
    sym: Symbols,
    slot: Slot,
    sign: Option<Slot>,
    blank: bool,
) -> Result<Option<(Slot, char)>, NumberFmtError> {
    if is_digit(c) {
        Ok(Some((slot, c)))
    } else if sign is Some && c == sym.negative_sym {
        Ok(Some((sign->0, '-')))
    } else if (sign is Some && c == sym.positive_sym) || (blank && c == ' ') {
        Ok(None)
    } else {
        Err(NumberFmtError::ParseInvalidDigit)
    }
}

/// What the token `t` reads from the character `c`: a character for one part
/// of the number, nothing, or an error. The currency token is not read this
/// way.
pub open spec fn read_glyph(t: Token, c: char, sym: Symbols) -> Result<
    Option<(Slot, char)>,
    NumberFmtError,
> {
    match t {
        Token::SignInt => if c == sym.negative_sym {
            Ok(Some((Slot::Sign, '-')))
        } else if c == sym.positive_sym {
            Ok(None)
        } else {
            Err(NumberFmtError::ParseInvalidSign)
        },
        Token::PlusInt => if c == '-' || c == '+' {
            Ok(Some((Slot::Sign, c)))
        } else {
            Err(NumberFmtError::ParseInvalidSign)
        },
        Token::Digit0(Mode::Integer, _) => read_digit(c, sym, Slot::Int, None, false),
        Token::Digit(Mode::Integer, _) => read_digit(c, sym, Slot::Int, None, true),
        Token::Numeric(Mode::Integer, _, _) => read_digit(
            c,
            sym,
            Slot::Int,
            Some(Slot::Sign),
            true,
        ),
        Token::GroupingSep(_, _) => match sym.decimal_grp {
            None => Ok(None),
            Some(grp) => if c == grp {
                Ok(None)
            } else if c == sym.negative_sym {
                Ok(Some((Slot::Sign, '-')))
            } else if c == sym.positive_sym || c == ' ' {
                Ok(None)
            } else {
                Err(NumberFmtError::ParseInvalidGroupingSep)
            },
        },
        Token::DecimalSep => if c == sym.decimal_sep {
            Ok(Some((Slot::Frac, '.')))
        } else if c == ' ' {
            Ok(None)
        } else {
            Err(NumberFmtError::ParseInvalidDecimalSep)
        },
        Token::DecimalSepAlways => if c == sym.decimal_sep {
            Ok(Some((Slot::Frac, '.')))
        } else {
            Err(NumberFmtError::ParseInvalidDecimalSep)
        },
        Token::Digit0(Mode::Fraction, _) => read_digit(c, sym, Slot::Frac, None, false),
        Token::Digit(Mode::Fraction, _) => read_digit(c, sym, Slot::Frac, None, true),
        Token::Numeric(Mode::Fraction, _, _) => read_digit(c, sym, Slot::Frac, None, false),
        Token::ExponentUpper => if c == sym.exponent_upper_sym || c == ' ' {
            Ok(None)
        } else {
            Err(NumberFmtError::ParseInvalidExp)
        },
        Token::ExponentLower => if c == sym.exponent_lower_sym || c == ' ' {
            Ok(None)
        } else {
            Err(NumberFmtError::ParseInvalidExp)
        },
        Token::Digit0(Mode::Exponent, _) => read_digit(c, sym, Slot::Exp, None, true),
        Token::Digit(Mode::Exponent, _) => read_digit(c, sym, Slot::Exp, None, true),
        Token::Numeric(Mode::Exponent, _, _) => read_digit(
            c,
            sym,
            Slot::Exp,
            Some(Slot::ExpSign),
            true,
        ),
        Token::SignExp => if c == sym.negative_sym {
            Ok(Some((Slot::ExpSign, '-')))
        } else if c == sym.positive_sym || c == '+' {
            Ok(None)
        } else {
            Err(NumberFmtError::ParseInvalidExpSign)
        },
        Token::PlusExp => if c == '-' {
            Ok(Some((Slot::ExpSign, '-')))
        } else if c == '+' {
            Ok(None)
        } else {
            Err(NumberFmtError::ParseInvalidExpSign)
        },
        Token::Currency => Ok(None),
        Token::Separator(sep) => if c == sep {
            Ok(None)
        } else {
            Err(NumberFmtError::ParseInvalidSeparator)
        },
    }
}

/// Whether `text` starts with the whole currency symbol, which is not empty.
pub open spec fn starts_with_currency(text: Seq<char>, currency: Seq<char>) -> bool {
    &&& 0 < currency.len() <= text.len()
    &&& text.take(currency.len() as int) == currency
}

/// Whether the token `t` takes no character of the text: a grouping
/// separator where the symbols have none, or the currency token where the
/// currency symbol is empty. Such a token writes nothing either.
pub open spec fn passes_over(t: Token, sym: Symbols) -> bool {
    ||| t is GroupingSep && sym.decimal_grp is None
    ||| t is Currency && sym.currency.len() == 0
}

/// What the tokens read from `text`, added to what `seen` holds. Tokens and
/// characters are consumed together until one of them runs out; a token
/// takes one character, the currency token as many as the currency symbol
/// has, and a token for which the symbols have nothing takes none. The
/// first token that does not accept its character decides the error.
pub open spec fn unmap_tokens(
    tokens: Seq<Token>,
    text: Seq<char>,
    sym: Symbols,
    seen: Unmapped,
) -> Result<Unmapped, NumberFmtError>
    decreases tokens.len(),
{
    if tokens.len() == 0 || text.len() == 0 {
        Ok(seen)
    } else if passes_over(tokens[0], sym) {
        unmap_tokens(tokens.drop_first(), text, sym, seen)
    } else if tokens[0] is Currency {
        if starts_with_currency(text, sym.currency) {
            unmap_tokens(
                tokens.drop_first(),
                text.skip(sym.currency.len() as int),
                sym,
                seen,
            )
        } else {
            Err(NumberFmtError::ParseInvalidCurrency)
        }
    } else {
        match read_glyph(tokens[0], text[0], sym) {
            Ok(read) => unmap_tokens(
                tokens.drop_first(),
                text.skip(1),
                sym,
                seen.with_read(read),
            ),
            Err(e) => Err(e),
        }
    }
}

/// The plain decimal text that the formatted text `text` stands for, read
/// with the tokens of a compiled pattern, or the error of the first token
/// that does not accept its character.
pub open spec fn unmap_result(text: Seq<char>, f: FormatModel, sym: Symbols) -> Result<
    Seq<char>,
    NumberFmtError,
> {
    match unmap_tokens(f.tokens, text, sym, Unmapped::empty()) {
        Ok(seen) => Ok(seen.text()),
        Err(e) => Err(e),
    }
}

/// What is kept of `text` when it is read without a pattern. Digits are
/// kept, but for zeros before the first other digit (`started` says that one
/// was seen); the negative glyph becomes `-`, the decimal separator `.`, an
/// exponent marker `e`; the positive glyph, `+` and all else are dropped.
pub open spec fn clean_text(text: Seq<char>, sym: Symbols, started: bool) -> Seq<char>
    decreases text.len(),
{
    if text.len() == 0 {
        Seq::empty()
    } else {
        let c = text[0];
        clean_glyph(c, sym, started) + clean_text(
            text.drop_first(),
            sym,
            started || (is_digit(c) && c != '0'),
        )
    }
}

/// What is kept of the single character `c`.
pub open spec fn clean_glyph(c: char, sym: Symbols, started: bool) -> Seq<char> {
    if is_digit(c) {
        if started || c != '0' {
            seq![c]
        } else {
            Seq::empty()
        }
    } else if c == sym.negative_sym {
        seq!['-']
    } else if c == sym.positive_sym || c == '+' {
        Seq::empty()
    } else if c == sym.decimal_sep {
        seq!['.']
    } else if c == sym.exponent_lower_sym || c == sym.exponent_upper_sym {
        seq!['e']
    } else {
        Seq::empty()
    }
}

} // verus!
