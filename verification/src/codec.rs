//! The codec itself: rendering plain decimal text with a compiled pattern,
//! reading it back from formatted text, and the loose reader that needs no
//! pattern.

use std::fmt::{Display, LowerExp};
use std::str::FromStr;
use vstd::prelude::*;
use vstd::string::{StringExecFns, StringSliceAdditionalSpecFns};
use vstd::utf8::encode_utf8;
use crate::error::NumberFmtError;
use crate::laws::{exp_sign_written_once, lemma_signs_written_once, sign_written_once};
use crate::model::FormatModel;
use crate::native::{convert, converts_to, parse_plain, parsed, parses_as, text_of, MAX_PRECISION};
use crate::pattern::NumberFormat;
use crate::raw::{split_num, split_raw, RawSplit};
use crate::render::{
    exp_sign_here, exp_sign_index, exp_text, exp_width, frac_glyph, int_glyph, is_sign_place,
    larger, lemma_render_text_step, lemma_sign_places_from, lemma_uses_sign_next, render_result,
    render_text, render_written, sign_here, token_text, uses_exp_sign, uses_sign,
    writes_exp_sign,
};
use crate::symbols::{NumberSymbols, Symbols};
use crate::text::{push_blanks, push_chars, to_chars};
use crate::token::{Mode, Token};
use crate::unmap::{
    clean_glyph, clean_text, is_digit, read_digit, read_glyph, starts_with_currency,
    unmap_result, unmap_tokens, Slot, Unmapped,
};

verus! {

/// The greater of two numbers.
fn larger_of(a: usize, b: usize) -> (r: usize)
    ensures
        r == larger(a as nat, b as nat),
{
    if a >= b {
        a
    } else {
        b
    }
}

/// The glyph of a digit token of the integer part.
fn int_char(bytes: &[u8], split: &RawSplit, i: usize, sign: Option<char>, filler: char) -> (c: char)
    requires
        split.fits(bytes@.len()),
    ensures
        c == int_glyph(split.parts(bytes@), i as nat, sign, filler),
{
    if split.int_end - split.int_start > i {
        bytes[split.int_end - 1 - i] as char
    } else {
        match sign {
            Some(s) => s,
            None => filler,
        }
    }
}

/// The glyph of a digit token of the fraction.
fn frac_char(bytes: &[u8], split: &RawSplit, i: usize, filler: char) -> (c: char)
    requires
        split.fits(bytes@.len()),
    ensures
        c == frac_glyph(split.parts(bytes@), i as nat, filler),
{
    if split.frac_end - split.frac_start > i {
        bytes[split.frac_start + i] as char
    } else {
        filler
    }
}

/// Writes what a digit token of the exponent writes.
fn write_exp(
    bytes: &[u8],
    split: &RawSplit,
    format: &NumberFormat,
    i: usize,
    sign: Option<char>,
    filler: char,
    out: &mut String,
)
    requires
        split.fits(bytes@.len()),
        exp_width(split.parts(bytes@), format@) <= format@.len_exp,
    ensures
        final(out)@ == old(out)@ + exp_text(split.parts(bytes@), format@, i as nat, sign, filler),
{
    let len = bytes.len() - split.exp_start;
    let room = format.len_exp();
    let sign_at = larger_of(len, format.min_exp_sign());
    proof {
        let n = split.parts(bytes@);
        assert(n.exp.len() == len);
        assert(exp_sign_index(n, format@) == sign_at);
    }
    let width = if split.exp_negative { sign_at + 1 } else { sign_at };
    if i >= width {
    } else if len > i {
        out.push(bytes[bytes.len() - 1 - i] as char);
    } else {
        match sign {
            Some(s) => out.push(s),
            None => out.push(filler),
        }
    }
    if i == 0 {
        push_blanks(out, room - width);
    }
    proof {
        let n = split.parts(bytes@);
        assert(out@ =~= old(out)@ + exp_text(n, format@, i as nat, sign, filler));
    }
}

/// The sign of the number if the token with index `i` and flag `can` holds
/// it.
fn sign_for(
    bytes: &[u8],
    split: &RawSplit,
    format: &NumberFormat,
    sym: &NumberSymbols,
    i: usize,
    can: bool,
) -> (r: Option<char>)
    requires
        split.fits(bytes@.len()),
    ensures
        r == sign_here(split.parts(bytes@), format@, sym@, i as nat, can),
{
    if can && larger_of(split.int_end - split.int_start, format.min_int_sign()) == i {
        Some(if split.negative { sym.negative_sym } else { sym.positive_sym })
    } else {
        None
    }
}

/// The sign of the exponent if the token with index `i` and flag `can` holds
/// it.
fn exp_sign_for(
    bytes: &[u8],
    split: &RawSplit,
    format: &NumberFormat,
    sym: &NumberSymbols,
    i: usize,
    can: bool,
) -> (r: Option<char>)
    requires
        split.fits(bytes@.len()),
    ensures
        r == exp_sign_here(split.parts(bytes@), format@, sym@, i as nat, can),
{
    if can && larger_of(bytes.len() - split.exp_start, format.min_exp_sign()) == i {
        Some(if split.exp_negative { sym.negative_sym } else { sym.positive_sym })
    } else {
        None
    }
}

/// Whether the token `t` is a place for the sign of the number whose text is
/// `bytes`.
fn sign_place(t: Token, bytes: &[u8], split: &RawSplit, format: &NumberFormat, sym: &NumberSymbols)
    -> (b: bool)
    requires
        split.fits(bytes@.len()),
    ensures
        b == is_sign_place(t, split.parts(bytes@), format@, sym@),
{
    let sign_at = larger_of(split.int_end - split.int_start, format.min_int_sign());
    match t {
        Token::SignInt | Token::PlusInt => true,
        Token::GroupingSep(i, can) => sym.decimal_grp.is_some() && can && sign_at == i,
        Token::Numeric(Mode::Integer, i, can) => can && sign_at == i,
        _ => false,
    }
}

/// The position of the last token that is a place for the sign, or zero
/// where there is none: the tokens from that position on are those that no
/// place for the sign comes after.
fn last_sign_place(
    tokens: &Vec<Token>,
    bytes: &[u8],
    split: &RawSplit,
    format: &NumberFormat,
    sym: &NumberSymbols,
) -> (p: usize)
    requires
        split.fits(bytes@.len()),
    ensures
        forall|k: int|
            0 <= k < tokens.len() ==> ((k >= p) == !#[trigger] uses_sign(
                tokens@.skip(k + 1),
                split.parts(bytes@),
                format@,
                sym@,
            )),
{
    let ghost n = split.parts(bytes@);
    let mut i: usize = tokens.len();
    proof {
        lemma_sign_places_from(tokens@, i as int, n, format@, sym@);
    }
    while i > 0 && !sign_place(tokens[i - 1], bytes, split, format, sym)
        invariant
            i <= tokens.len(),
            n == split.parts(bytes@),
            split.fits(bytes@.len()),
            !uses_sign(tokens@.skip(i as int), n, format@, sym@),
        decreases i,
    {
        proof {
            lemma_sign_places_from(tokens@, i as int, n, format@, sym@);
            lemma_sign_places_from(tokens@, i - 1, n, format@, sym@);
        }
        i = i - 1;
    }
    let p = if i > 0 { i - 1 } else { 0 };
    proof {
        assert forall|k: int| 0 <= k < tokens.len() implies ((k >= p) == !#[trigger] uses_sign(
            tokens@.skip(k + 1),
            n,
            format@,
            sym@,
        )) by {
            lemma_sign_places_from(tokens@, k + 1, n, format@, sym@);
            lemma_sign_places_from(tokens@, i as int, n, format@, sym@);
        }
    }
    p
}

/// Writes what the token `t` writes for the number whose text is `bytes`,
/// and says whether it is a place for the sign of the number, and whether
/// it wrote the sign of the exponent. `last` says that no place for the
/// sign of the number comes after the token.
fn write_token<const EXP: bool>(
    t: Token,
    bytes: &[u8],
    split: &RawSplit,
    format: &NumberFormat,
    sym: &NumberSymbols,
    last: bool,
    out: &mut String,
) -> (used: (bool, bool))
    requires
        split.fits(bytes@.len()),
        EXP ==> exp_width(split.parts(bytes@), format@) <= format@.len_exp,
    ensures
        final(out)@ == old(out)@ + token_text(t, split.parts(bytes@), format@, sym@, EXP, last),
        used.0 == is_sign_place(t, split.parts(bytes@), format@, sym@),
        used.1 == writes_exp_sign(t, split.parts(bytes@), format@, EXP),
{
    let ghost n = split.parts(bytes@);
    let ghost before = out@;
    let mut used_sign = false;
    let mut used_exp_sign = false;
    let has_frac = split.frac_end > split.frac_start;
    let has_exp = bytes.len() > split.exp_start;
    match t {
        Token::SignInt => {
            out.push(if split.negative { sym.negative_sym } else { sym.positive_sym });
            used_sign = true;
        },
        Token::PlusInt => {
            out.push(if split.negative { '-' } else { '+' });
            used_sign = true;
        },
        Token::GroupingSep(i, can) => {
            if let Some(grp) = sym.decimal_grp {
                let sign = sign_for(bytes, split, format, sym, i, can && last);
                if split.int_end - split.int_start > i {
                    out.push(grp);
                } else {
                    out.push(int_char(bytes, split, i, sign, ' '));
                }
                used_sign = sign_place(t, bytes, split, format, sym);
            }
        },
        Token::Digit0(Mode::Integer, i) => {
            out.push(int_char(bytes, split, i, None, '0'));
        },
        Token::Digit(Mode::Integer, i) => {
            out.push(int_char(bytes, split, i, None, ' '));
        },
        Token::Numeric(Mode::Integer, i, can) => {
            let sign = sign_for(bytes, split, format, sym, i, can && last);
            out.push(int_char(bytes, split, i, sign, ' '));
            used_sign = sign_place(t, bytes, split, format, sym);
        },
        Token::DecimalSep => {
            out.push(if has_frac || format.has_frac_0() { sym.decimal_sep } else { ' ' });
        },
        Token::DecimalSepAlways => {
            out.push(sym.decimal_sep);
        },
        Token::Digit0(Mode::Fraction, i) => {
            out.push(frac_char(bytes, split, i, '0'));
        },
        Token::Digit(Mode::Fraction, i) => {
            out.push(frac_char(bytes, split, i, ' '));
        },
        Token::Numeric(Mode::Fraction, i, _) => {
            out.push(frac_char(bytes, split, i, ' '));
        },
        Token::Currency => {
            out.append(sym.currency_sym.as_str());
        },
        Token::Separator(c) => {
            out.push(c);
        },
        Token::ExponentUpper => {
            if EXP {
                out.push(if has_exp || format.has_exp_0() { sym.exponent_upper_sym } else { ' ' });
            }
        },
        Token::ExponentLower => {
            if EXP {
                out.push(if has_exp || format.has_exp_0() { sym.exponent_lower_sym } else { ' ' });
            }
        },
        Token::SignExp => {
            if EXP {
                if !split.exp_negative && sym.positive_sym == ' ' {
                    out.push('+');
                } else {
                    out.push(if split.exp_negative { sym.negative_sym } else { sym.positive_sym });
                }
                used_exp_sign = true;
            }
        },
        Token::PlusExp => {
            if EXP {
                out.push(if split.exp_negative { '-' } else { '+' });
                used_exp_sign = true;
            }
        },
        Token::Digit0(Mode::Exponent, i) => {
            if EXP {
                write_exp(bytes, split, format, i, None, '0', out);
            }
        },
        Token::Digit(Mode::Exponent, i) => {
            if EXP {
                write_exp(bytes, split, format, i, None, ' ', out);
            }
        },
        Token::Numeric(Mode::Exponent, i, can) => {
            if EXP {
                let sign = exp_sign_for(bytes, split, format, sym, i, can);
                write_exp(bytes, split, format, i, sign, ' ', out);
                used_exp_sign = sign.is_some() && split.exp_negative;
            }
        },
    }
    proof {
        assert(out@ =~= before + token_text(t, n, format@, sym@, EXP, last));
    }
    (used_sign, used_exp_sign)
}

/// Renders the plain decimal text of a number with a compiled pattern and
/// appends the result to `out`.
///
/// `raw` is what the standard formatting of a number gives: `.` as decimal
/// point, `e` before the exponent, `-` as sign. `EXP` says whether the tokens
/// of the exponent are written. A number with more integer or exponent
/// digits than the pattern is refused and nothing is written; a sign that
/// the pattern has no place for is reported after the text was written.
/// No sign is written twice: where several tokens are a place for the sign
/// of the number, the last of them writes it, next to the digits.
pub fn map_num<const EXP: bool>(
    raw: &str,
    format: &NumberFormat,
    sym: &NumberSymbols,
    out: &mut String,
) -> (r: Result<(), NumberFmtError>)
    ensures
        r == render_result(raw.spec_bytes(), format@, sym@, EXP),
        final(out)@ == old(out)@ + render_written(raw.spec_bytes(), format@, sym@, EXP),
        split_raw(raw.spec_bytes()).int.len() > format@.len_int ==> r == Err::<
            (),
            NumberFmtError,
        >(NumberFmtError::FmtLenInt) && final(out)@ == old(out)@,
        sign_written_once(format@.tokens, split_raw(raw.spec_bytes()), format@, sym@),
        exp_sign_written_once(format@.tokens, split_raw(raw.spec_bytes()), format@, EXP),
{
    let tokens = format.tokens();
    proof {
        lemma_signs_written_once(format@, split_raw(raw.spec_bytes()), sym@, EXP);
    }
    let bytes = raw.as_bytes();
    let split = split_num(raw);
    let ghost n = split.parts(bytes@);
    let ghost f = format@;
    proof {
        assert(old(out)@ + Seq::<char>::empty() =~= old(out)@);
    }
    if split.int_end - split.int_start > format.len_int() {
        return Err(NumberFmtError::FmtLenInt);
    }
    if EXP {
        let sign_at = larger_of(bytes.len() - split.exp_start, format.min_exp_sign());
        if sign_at > format.len_exp() || (split.exp_negative && sign_at == format.len_exp()) {
            return Err(NumberFmtError::FmtLenExp);
        }
    }
    let sign_place = last_sign_place(tokens, bytes, &split, format, sym);
    let mut used_sign = false;
    let mut used_exp_sign = false;
    let mut i: usize = 0;
    proof {
        assert(tokens@.skip(0) =~= tokens@);
        assert(tokens@.take(0) =~= Seq::<Token>::empty());
    }
    while i < tokens.len()
        invariant
            i <= tokens.len(),
            tokens@ == f.tokens,
            f == format@,
            n == split.parts(bytes@),
            split.fits(bytes@.len()),
            EXP ==> exp_width(n, f) <= f.len_exp,
            out@ + render_text(tokens@.skip(i as int), n, f, sym@, EXP) == old(out)@ + render_text(
                tokens@,
                n,
                f,
                sym@,
                EXP,
            ),
            forall|k: int|
                0 <= k < tokens.len() ==> ((k >= sign_place) == !#[trigger] uses_sign(
                    tokens@.skip(k + 1),
                    n,
                    f,
                    sym@,
                )),
            used_sign == uses_sign(tokens@.take(i as int), n, f, sym@),
            used_exp_sign == uses_exp_sign(tokens@.take(i as int), n, f, EXP),
        decreases tokens.len() - i,
    {
        let ghost before = out@;
        proof {
            lemma_render_text_step(tokens@, i as int, n, f, sym@, EXP);
            lemma_uses_sign_next(tokens@, i as int, n, f, sym@, EXP);
        }
        let last = i >= sign_place;
        let used = write_token::<EXP>(tokens[i], bytes, &split, format, sym, last, out);
        used_sign = used_sign || used.0;
        used_exp_sign = used_exp_sign || used.1;
        proof {
            let here = token_text(tokens@[i as int], n, f, sym@, EXP, last);
            let rest = render_text(tokens@.skip(i + 1), n, f, sym@, EXP);
            assert((before + here) + rest =~= before + (here + rest));
        }
        i = i + 1;
    }
    proof {
        assert(tokens@.take(tokens.len() as int) =~= tokens@);
        assert(tokens@.skip(tokens.len() as int) =~= Seq::<Token>::empty());
        assert(out@ + Seq::<char>::empty() =~= out@);
    }
    if !used_sign && split.negative {
        return Err(NumberFmtError::FmtNoSign);
    }
    if !used_exp_sign && split.exp_negative {
        return Err(NumberFmtError::FmtNoExpSign);
    }
    Ok(())
}

/// Whether `c` is one of the digits `0` to `9`.
fn is_ascii_digit(c: char) -> (b: bool)
    ensures
        b == is_digit(c),
{
    '0' <= c && c <= '9'
}

/// What a digit token reads from `c`.
fn read_digit_char(c: char, sym: &NumberSymbols, slot: Slot, sign: Option<Slot>, blank: bool) -> (r:
    Result<Option<(Slot, char)>, NumberFmtError>)
    ensures
        r == read_digit(c, sym@, slot, sign, blank),
{
    if is_ascii_digit(c) {
        Ok(Some((slot, c)))
    } else {
        match sign {
            Some(sign_slot) => {
                if c == sym.negative_sym {
                    Ok(Some((sign_slot, '-')))
                } else if c == sym.positive_sym || (blank && c == ' ') {
                    Ok(None)
                } else {
                    Err(NumberFmtError::ParseInvalidDigit)
                }
            },
            None => {
                if blank && c == ' ' {
                    Ok(None)
                } else {
                    Err(NumberFmtError::ParseInvalidDigit)
                }
            },
        }
    }
}

/// What the token `t` reads from the character `c`.
fn read_char(t: Token, c: char, sym: &NumberSymbols) -> (r: Result<
    Option<(Slot, char)>,
    NumberFmtError,
>)
    ensures
        r == read_glyph(t, c, sym@),
{
    match t {
        Token::SignInt => {
            if c == sym.negative_sym {
                Ok(Some((Slot::Sign, '-')))
            } else if c == sym.positive_sym {
                Ok(None)
            } else {
                Err(NumberFmtError::ParseInvalidSign)
            }
        },
        Token::PlusInt => {
            if c == '-' || c == '+' {
                Ok(Some((Slot::Sign, c)))
            } else {
                Err(NumberFmtError::ParseInvalidSign)
            }
        },
        Token::Digit0(Mode::Integer, _) => read_digit_char(c, sym, Slot::Int, None, false),
        Token::Digit(Mode::Integer, _) => read_digit_char(c, sym, Slot::Int, None, true),
        Token::Numeric(Mode::Integer, _, _) => read_digit_char(
            c,
            sym,
            Slot::Int,
            Some(Slot::Sign),
            true,
        ),
        Token::GroupingSep(_, _) => {
            match sym.decimal_grp {
                None => Ok(None),
                Some(grp) => {
                    if c == grp {
                        Ok(None)
                    } else if c == sym.negative_sym {
                        Ok(Some((Slot::Sign, '-')))
                    } else if c == sym.positive_sym || c == ' ' {
                        Ok(None)
                    } else {
                        Err(NumberFmtError::ParseInvalidGroupingSep)
                    }
                },
            }
        },
        Token::DecimalSep => {
            if c == sym.decimal_sep {
                Ok(Some((Slot::Frac, '.')))
            } else if c == ' ' {
                Ok(None)
            } else {
                Err(NumberFmtError::ParseInvalidDecimalSep)
            }
        },
        Token::DecimalSepAlways => {
            if c == sym.decimal_sep {
                Ok(Some((Slot::Frac, '.')))
            } else {
                Err(NumberFmtError::ParseInvalidDecimalSep)
            }
        },
        Token::Digit0(Mode::Fraction, _) => read_digit_char(c, sym, Slot::Frac, None, false),
        Token::Digit(Mode::Fraction, _) => read_digit_char(c, sym, Slot::Frac, None, true),
        Token::Numeric(Mode::Fraction, _, _) => read_digit_char(c, sym, Slot::Frac, None, false),
        Token::ExponentUpper => {
            if c == sym.exponent_upper_sym || c == ' ' {
                Ok(None)
            } else {
                Err(NumberFmtError::ParseInvalidExp)
            }
        },
        Token::ExponentLower => {
            if c == sym.exponent_lower_sym || c == ' ' {
                Ok(None)
            } else {
                Err(NumberFmtError::ParseInvalidExp)
            }
        },
        Token::Digit0(Mode::Exponent, _) => read_digit_char(c, sym, Slot::Exp, None, true),
        Token::Digit(Mode::Exponent, _) => read_digit_char(c, sym, Slot::Exp, None, true),
        Token::Numeric(Mode::Exponent, _, _) => read_digit_char(
            c,
            sym,
            Slot::Exp,
            Some(Slot::ExpSign),
            true,
        ),
        Token::SignExp => {
            if c == sym.negative_sym {
                Ok(Some((Slot::ExpSign, '-')))
            } else if c == sym.positive_sym || c == '+' {
                Ok(None)
            } else {
                Err(NumberFmtError::ParseInvalidExpSign)
            }
        },
        Token::PlusExp => {
            if c == '-' {
                Ok(Some((Slot::ExpSign, '-')))
            } else if c == '+' {
                Ok(None)
            } else {
                Err(NumberFmtError::ParseInvalidExpSign)
            }
        },
        Token::Currency => Ok(None),
        Token::Separator(sep) => {
            if c == sep {
                Ok(None)
            } else {
                Err(NumberFmtError::ParseInvalidSeparator)
            }
        },
    }
}

/// Whether the text from position `at` on starts with the whole currency
/// symbol, which is not empty.
fn currency_at(text: &Vec<char>, at: usize, currency: &Vec<char>) -> (b: bool)
    requires
        at <= text.len(),
    ensures
        b == starts_with_currency(text@.skip(at as int), currency@),
{
    let rest = text.len() - at;
    if currency.len() == 0 || currency.len() > rest {
        return false;
    }
    let mut k: usize = 0;
    while k < currency.len()
        invariant
            k <= currency.len() <= text.len() - at,
            at <= text.len(),
            forall|j: int| 0 <= j < k ==> text@[at + j] == currency@[j],
        decreases currency.len() - k,
    {
        if text[at + k] != currency[k] {
            proof {
                let head = text@.skip(at as int).take(currency@.len() as int);
                assert(head[k as int] == text@[at + k]);
            }
            return false;
        }
        k = k + 1;
    }
    proof {
        assert(text@.skip(at as int).take(currency@.len() as int) =~= currency@);
    }
    true
}

/// The five parts of a number while they are read.
struct Parts {
    sign: Vec<char>,
    int: Vec<char>,
    frac: Vec<char>,
    exp_sign: Vec<char>,
    exp: Vec<char>,
}

impl View for Parts {
    type V = Unmapped;

    closed spec fn view(&self) -> Unmapped {
        Unmapped {
            sign: self.sign@,
            int: self.int@,
            frac: self.frac@,
            exp_sign: self.exp_sign@,
            exp: self.exp@,
        }
    }
}

impl Parts {
    /// Adds what a token read.
    fn put(&mut self, read: Option<(Slot, char)>)
        ensures
            final(self)@ == old(self)@.with_read(read),
    {
        match read {
            None => {},
            Some((Slot::Sign, c)) => self.sign.push(c),
            Some((Slot::Int, c)) => self.int.push(c),
            Some((Slot::Frac, c)) => self.frac.push(c),
            Some((Slot::ExpSign, c)) => self.exp_sign.push(c),
            Some((Slot::Exp, c)) => self.exp.push(c),
        }
    }

    /// Appends the plain decimal text of the parts to `out`.
    fn write(&self, out: &mut String)
        ensures
            final(out)@ == old(out)@ + self@.text(),
    {
        push_chars(out, &self.sign);
        push_chars(out, &self.int);
        push_chars(out, &self.frac);
        if self.exp.len() > 0 {
            out.push('e');
        }
        push_chars(out, &self.exp_sign);
        push_chars(out, &self.exp);
        proof {
            assert(out@ =~= old(out)@ + self@.text());
        }
    }
}

/// Reads formatted text with a compiled pattern and appends the plain
/// decimal text of the number to `out`.
///
/// Tokens and characters are taken together until one of them runs out, so
/// text that is shorter or longer than the pattern is accepted as far as it
/// goes. Nothing is written where a token does not accept its character.
/// A grouping separator or currency token takes no character where the
/// symbols have nothing for it.
pub fn unmap_num(
    formatted: &str,
    format: &NumberFormat,
    sym: &NumberSymbols,
    out: &mut String,
) -> (r: Result<(), NumberFmtError>)
    ensures
        match unmap_result(formatted@, format@, sym@) {
            Ok(raw) => r is Ok && final(out)@ == old(out)@ + raw,
            Err(e) => r == Err::<(), NumberFmtError>(e) && final(out)@ == old(out)@,
        },
{
    let text = to_chars(formatted);
    let currency = to_chars(sym.currency_sym.as_str());
    let tokens = format.tokens();
    let mut parts = Parts {
        sign: Vec::new(),
        int: Vec::new(),
        frac: Vec::new(),
        exp_sign: Vec::new(),
        exp: Vec::new(),
    };
    let mut i: usize = 0;
    let mut j: usize = 0;
    proof {
        assert(tokens@.skip(0) =~= tokens@);
        assert(text@.skip(0) =~= text@);
    }
    while i < tokens.len() && j < text.len()
        invariant
            i <= tokens.len(),
            j <= text.len(),
            text@ == formatted@,
            tokens@ == format@.tokens,
            currency@ == sym.currency_sym@,
            out@ == old(out)@,
            unmap_tokens(tokens@.skip(i as int), text@.skip(j as int), sym@, parts@)
                == unmap_tokens(tokens@, text@, sym@, Unmapped::empty()),
        decreases tokens.len() - i,
    {
        let t = tokens[i];
        proof {
            assert(tokens@.skip(i as int).drop_first() =~= tokens@.skip(i + 1));
            assert(text@.skip(j as int).skip(1) =~= text@.skip(j + 1));
        }
        let passes = match t {
            Token::GroupingSep(_, _) => sym.decimal_grp.is_none(),
            Token::Currency => currency.len() == 0,
            _ => false,
        };
        if passes {
        } else {
        match t {
            Token::Currency => {
                if !currency_at(&text, j, &currency) {
                    return Err(NumberFmtError::ParseInvalidCurrency);
                }
                proof {
                    assert(text@.skip(j as int).skip(currency@.len() as int) =~= text@.skip(
                        j + currency@.len(),
                    ));
                }
                j = j + currency.len();
            },
            _ => {
                match read_char(t, text[j], sym) {
                    Ok(read) => {
                        parts.put(read);
                    },
                    Err(e) => {
                        return Err(e);
                    },
                }
                j = j + 1;
            },
        }
        }
        i = i + 1;
    }
    parts.write(out);
    Ok(())
}

/// Reads formatted text without a pattern and appends what it keeps to
/// `out`: the digits without leading zeros, `-`, `.` and `e` for the
/// glyphs of the symbols. Every other character is passed over, so this
/// never fails.
pub fn clean_num(formatted: &str, sym: &NumberSymbols, out: &mut String) -> (r: Result<
    (),
    NumberFmtError,
>)
    ensures
        r is Ok,
        final(out)@ == old(out)@ + clean_text(formatted@, sym@, false),
{
    let text = to_chars(formatted);
    let mut seen_non_0 = false;
    let mut i: usize = 0;
    proof {
        assert(text@.skip(0) =~= text@);
    }
    while i < text.len()
        invariant
            i <= text.len(),
            text@ == formatted@,
            out@ + clean_text(text@.skip(i as int), sym@, seen_non_0) == old(out)@ + clean_text(
                text@,
                sym@,
                false,
            ),
        decreases text.len() - i,
    {
        let c = text[i];
        let ghost before = out@;
        let ghost started = seen_non_0;
        proof {
            assert(text@.skip(i as int).drop_first() =~= text@.skip(i + 1));
        }
        if is_ascii_digit(c) {
            seen_non_0 = seen_non_0 || c != '0';
            if seen_non_0 {
                out.push(c);
            }
        } else if c == sym.negative_sym {
            out.push('-');
        } else if c == sym.positive_sym || c == '+' {
        } else if c == sym.decimal_sep {
            out.push('.');
        } else if c == sym.exponent_lower_sym || c == sym.exponent_upper_sym {
            out.push('e');
        }
        proof {
            let here = clean_glyph(c, sym@, started);
            let rest = clean_text(text@.skip(i + 1), sym@, seen_non_0);
            assert(out@ =~= before + here);
            assert((before + here) + rest =~= before + (here + rest));
        }
        i = i + 1;
    }
    proof {
        assert(out@ + Seq::<char>::empty() =~= out@);
    }
    Ok(())
}

/// Whether rendering what the conversion of a number gave can end as `r`
/// with the text `before` grown to `after`: without a text the conversion
/// failed, the error is `Fmt` and nothing was written; with a text, `r` and
/// what was written are what rendering that text gives. The exponent is
/// written if the pattern has one.
pub open spec fn renders_as(
    raw: Option<Seq<char>>,
    f: FormatModel,
    sym: Symbols,
    r: Result<(), NumberFmtError>,
    before: Seq<char>,
    after: Seq<char>,
) -> bool {
    match raw {
        Some(text) => {
            &&& r == render_result(encode_utf8(text), f, sym, f.has_exp)
            &&& after == before + render_written(encode_utf8(text), f, sym, f.has_exp)
        },
        None => r == Err::<(), NumberFmtError>(NumberFmtError::Fmt) && after == before,
    }
}

/// Whether formatting `number` with the pattern `f` ended as `r` with the
/// text `before` grown to `after`. A pattern with more fraction digits than
/// the standard conversion takes is refused with `Fmt`. Else the number was
/// converted to plain decimal text, in scientific notation if the pattern
/// has an exponent, with as many fraction digits as the pattern has, and
/// that text was rendered.
pub open spec fn formats_as<Number: LowerExp + Display>(
    number: &Number,
    f: FormatModel,
    sym: Symbols,
    r: Result<(), NumberFmtError>,
    before: Seq<char>,
    after: Seq<char>,
) -> bool {
    if f.len_frac > MAX_PRECISION {
        r == Err::<(), NumberFmtError>(NumberFmtError::Fmt) && after == before
    } else {
        exists|raw: Option<Seq<char>>| #[trigger]
            converts_to(number, f.has_exp, f.len_frac as usize, raw) && renders_as(
                raw,
                f,
                sym,
                r,
                before,
                after,
            )
    }
}

/// Renders the text that the standard conversion gave for a number, with the
/// exponent if the pattern has one; without a text the conversion failed.
pub fn format_raw(
    raw: Option<String>,
    format: &NumberFormat,
    sym: &NumberSymbols,
    out: &mut String,
) -> (r: Result<(), NumberFmtError>)
    ensures
        renders_as(text_of(raw), format@, sym@, r, old(out)@, final(out)@),
{
    match raw {
        Some(text) => {
            if format.has_exp() {
                map_num::<true>(text.as_str(), format, sym, out)
            } else {
                map_num::<false>(text.as_str(), format, sym, out)
            }
        },
        None => Err(NumberFmtError::Fmt),
    }
}

/// Formats a number with a compiled pattern and appends the result to `out`.
///
/// The number is first written as plain decimal text by its own standard
/// conversion, with as many fraction digits as the pattern has: in
/// scientific notation if the pattern has an exponent, else in plain
/// notation. That text is then rendered. A pattern with more fraction digits
/// than the standard conversion takes is refused with `Fmt`.
pub fn format_to<Number: LowerExp + Display>(
    number: Number,
    format: &NumberFormat,
    sym: &NumberSymbols,
    out: &mut String,
) -> (r: Result<(), NumberFmtError>)
    ensures
        formats_as(&number, format@, sym@, r, old(out)@, final(out)@),
{
    if format.len_frac() > MAX_PRECISION {
        return Err(NumberFmtError::Fmt);
    }
    let raw = convert(&number, format.has_exp(), format.len_frac());
    let r = format_raw(raw, format, sym, out);
    proof {
        assert(converts_to(&number, format@.has_exp, format@.len_frac as usize, text_of(raw)));
    }
    r
}

/// What parsing gives once the standard conversion from text has run: its
/// value, or the error for a text that it refused.
pub fn parsed_value<F>(value: Option<F>) -> (r: Result<F, NumberFmtError>)
    ensures
        r == parsed(value),
{
    match value {
        Some(v) => Ok(v),
        None => Err(NumberFmtError::Parse),
    }
}

/// Whether parsing the formatted text `text` with the pattern `f` as the
/// type `F` ended as `r`: an error of reading the text back is returned as
/// it is; else the standard conversion of that type was called on the plain
/// decimal text that was read back, and `r` is the value that it read, or
/// `Parse` where it refused the text.
pub open spec fn parses_back_as<F: FromStr>(
    text: Seq<char>,
    f: FormatModel,
    sym: Symbols,
    r: Result<F, NumberFmtError>,
) -> bool {
    match unmap_result(text, f, sym) {
        Ok(raw) => parses_as::<F>(raw, r),
        Err(e) => r == Err::<F, NumberFmtError>(e),
    }
}

/// Parses a number from text that was written with the compiled pattern.
///
/// The text is read back to plain decimal text, which the standard
/// conversion of the target type then reads. An error of the first step is
/// returned as it is; the second step fails with `Parse`.
pub fn parse_fmt<F: FromStr>(s: &str, fmt: &NumberFormat, sym: &NumberSymbols) -> (r: Result<
    F,
    NumberFmtError,
>)
    ensures
        parses_back_as::<F>(s@, fmt@, sym@, r),
{
    let mut raw = String::new();
    match unmap_num(s, fmt, sym, &mut raw) {
        Ok(_) => {
            proof {
                assert(raw@ =~= unmap_result(s@, fmt@, sym@)->Ok_0);
            }
            let value = parse_plain::<F>(raw.as_str());
            parsed_value(value)
        },
        Err(e) => Err(e),
    }
}

/// Parses a number from text whose layout is not known: whatever is no
/// digit, sign, decimal separator or exponent marker of the symbols is
/// passed over, and the standard conversion of the target type reads the
/// rest. It fails with `Parse` where that conversion refuses the text.
/// The text that is handed to the conversion is what the loose reader
/// keeps of `s`, and the result is what the conversion returned for it.
pub fn parse_sym<F: FromStr>(s: &str, sym: &NumberSymbols) -> (r: Result<F, NumberFmtError>)
    ensures
        parses_as::<F>(clean_text(s@, sym@, false), r),
        r is Ok || r == Err::<F, NumberFmtError>(NumberFmtError::Parse),
{
    let mut raw = String::new();
    let _ = clean_num(s, sym, &mut raw);
    proof {
        assert(raw@ =~= clean_text(s@, sym@, false));
    }
    let value = parse_plain::<F>(raw.as_str());
    parsed_value(value)
}

} // verus!
