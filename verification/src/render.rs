//! What rendering a number with a compiled pattern writes, token by token.

use vstd::prelude::*;
use crate::error::NumberFmtError;
use crate::model::FormatModel;
use crate::raw::{split_raw, RawNumber};
use crate::symbols::Symbols;
use crate::token::{Mode, Token};

verus! {

/// The greater of two numbers.
pub open spec fn larger(a: nat, b: nat) -> nat {
    if a >= b {
        a
    } else {
        b
    }
}

/// `n` blanks.
pub open spec fn blanks(n: nat) -> Seq<char> {
    Seq::new(n, |i: int| ' ')
}

/// The index of the one position that may hold the sign of the number,
/// where the pattern has no sign of its own: just left of the digits of the
/// number and of the digits that the pattern always writes.
pub open spec fn sign_index(n: RawNumber, f: FormatModel) -> nat {
    larger(n.int.len(), f.min_int_sign)
}

/// The index of the one position that may hold the sign of the exponent.
pub open spec fn exp_sign_index(n: RawNumber, f: FormatModel) -> nat {
    larger(n.exp.len(), f.min_exp_sign)
}

/// The positions the exponent takes: its digits, the digits that the pattern
/// always writes, and its sign if it is negative.
pub open spec fn exp_width(n: RawNumber, f: FormatModel) -> nat {
    exp_sign_index(n, f) + if n.exp_negative { 1nat } else { 0nat }
}

/// The positions of the pattern's exponent that the exponent does not take.
/// They are written as blanks behind its last digit.
pub open spec fn exp_padding(n: RawNumber, f: FormatModel) -> nat {
    (f.len_exp - exp_width(n, f)) as nat
}

/// The glyph for the sign of a number or an exponent.
pub open spec fn sign_glyph(negative: bool, sym: Symbols) -> char {
    if negative {
        sym.negative_sym
    } else {
        sym.positive_sym
    }
}

/// The digit with index `i`, counted from the right end of `digits`.
pub open spec fn digit_from_right(digits: Seq<u8>, i: nat) -> char {
    digits[digits.len() - 1 - i] as char
}

/// Whether the token `t` is a place for the sign of the number `n`: a sign
/// token, or a `#` of the integer part or a grouping separator that may
/// hold the sign and whose index is that of the sign.
pub open spec fn is_sign_place(t: Token, n: RawNumber, f: FormatModel, sym: Symbols) -> bool {
    match t {
        Token::SignInt => true,
        Token::PlusInt => true,
        Token::GroupingSep(i, can) => sym.decimal_grp is Some && can && sign_index(n, f) == i,
        Token::Numeric(Mode::Integer, i, can) => can && sign_index(n, f) == i,
        _ => false,
    }
}

/// Whether the token `t` writes the sign of the exponent of `n`. Without
/// `exp` no token of the exponent writes anything.
pub open spec fn writes_exp_sign(t: Token, n: RawNumber, f: FormatModel, exp: bool) -> bool {
    exp && match t {
        Token::SignExp => true,
        Token::PlusExp => true,
        Token::Numeric(Mode::Exponent, i, can) => can && n.exp_negative && exp_sign_index(n, f)
            == i,
        _ => false,
    }
}

/// Whether some token of `tokens` is a place for the sign of the number.
/// The sign is then written.
pub open spec fn uses_sign(
    tokens: Seq<Token>,
    n: RawNumber,
    f: FormatModel,
    sym: Symbols,
) -> bool {
    exists|k: int| 0 <= k < tokens.len() && is_sign_place(#[trigger] tokens[k], n, f, sym)
}

/// Whether the token at position `k` writes the sign of the number `n`: a
/// sign token always, another place for the sign if no place for it comes
/// after. So of the places at the sign's index the one next to the digits
/// writes the sign, and the others a blank.
pub open spec fn writes_sign_at(
    tokens: Seq<Token>,
    k: int,
    n: RawNumber,
    f: FormatModel,
    sym: Symbols,
) -> bool {
    &&& is_sign_place(tokens[k], n, f, sym)
    &&& (tokens[k] is SignInt || tokens[k] is PlusInt || !uses_sign(tokens.skip(k + 1), n, f, sym))
}

/// Whether some token of `tokens` writes the sign of the exponent.
pub open spec fn uses_exp_sign(tokens: Seq<Token>, n: RawNumber, f: FormatModel, exp: bool)
    -> bool {
    exists|k: int| 0 <= k < tokens.len() && writes_exp_sign(#[trigger] tokens[k], n, f, exp)
}

/// What a digit token of the integer part writes: the digit of the number
/// with the token's index, else the sign if `sign` says so, else `filler`.
pub open spec fn int_glyph(n: RawNumber, i: nat, sign: Option<char>, filler: char) -> char {
    if n.int.len() > i {
        digit_from_right(n.int, i)
    } else if sign is Some {
        sign->0
    } else {
        filler
    }
}

/// What a digit token of the fraction writes.
pub open spec fn frac_glyph(n: RawNumber, i: nat, filler: char) -> char {
    if n.frac.len() > i {
        n.frac[i as int] as char
    } else {
        filler
    }
}

/// What a digit token of the exponent writes. The exponent is shifted to the
/// left: the tokens beyond its width write nothing, and the token with index
/// zero writes the blanks that make up for them behind its digit.
pub open spec fn exp_text(
    n: RawNumber,
    f: FormatModel,
    i: nat,
    sign: Option<char>,
    filler: char,
) -> Seq<char> {
    (if i >= exp_width(n, f) {
        Seq::empty()
    } else if n.exp.len() > i {
        seq![digit_from_right(n.exp, i)]
    } else if sign is Some {
        seq![sign->0]
    } else {
        seq![filler]
    }) + (if i == 0 {
        blanks(exp_padding(n, f))
    } else {
        Seq::empty()
    })
}

/// The sign of the number if the token with index `i` and flag `can` is the
/// one that holds it.
pub open spec fn sign_here(n: RawNumber, f: FormatModel, sym: Symbols, i: nat, can: bool)
    -> Option<char> {
    if can && sign_index(n, f) == i {
        Some(sign_glyph(n.negative, sym))
    } else {
        None
    }
}

/// The sign of the exponent if the token with index `i` and flag `can` is the
/// one that holds it.
pub open spec fn exp_sign_here(
    n: RawNumber,
    f: FormatModel,
    sym: Symbols,
    i: nat,
    can: bool,
) -> Option<char> {
    if can && exp_sign_index(n, f) == i {
        Some(sign_glyph(n.exp_negative, sym))
    } else {
        None
    }
}

/// What the token `t` writes for the number `n`. With `exp` unset the tokens
/// of the exponent write nothing. `last` says that no place for the sign
/// comes after the token: only then a `#` or a grouping separator writes
/// the sign.
pub open spec fn token_text(
    t: Token,
    n: RawNumber,
    f: FormatModel,
    sym: Symbols,
    exp: bool,
    last: bool,
) -> Seq<char> {
    match t {
        Token::SignInt => seq![sign_glyph(n.negative, sym)],
        Token::PlusInt => seq![if n.negative { '-' } else { '+' }],
        Token::GroupingSep(i, can) => match sym.decimal_grp {
            None => Seq::empty(),
            Some(grp) => seq![
                if n.int.len() > i {
                    grp
                } else {
                    int_glyph(n, i as nat, sign_here(n, f, sym, i as nat, can && last), ' ')
                },
            ],
        },
        Token::Digit0(Mode::Integer, i) => seq![int_glyph(n, i as nat, None, '0')],
        Token::Digit(Mode::Integer, i) => seq![int_glyph(n, i as nat, None, ' ')],
        Token::Numeric(Mode::Integer, i, can) => seq![
            int_glyph(n, i as nat, sign_here(n, f, sym, i as nat, can && last), ' '),
        ],
        Token::DecimalSep => seq![
            if n.frac.len() > 0 || f.has_frac_0 {
                sym.decimal_sep
            } else {
                ' '
            },
        ],
        Token::DecimalSepAlways => seq![sym.decimal_sep],
        Token::Digit0(Mode::Fraction, i) => seq![frac_glyph(n, i as nat, '0')],
        Token::Digit(Mode::Fraction, i) => seq![frac_glyph(n, i as nat, ' ')],
        Token::Numeric(Mode::Fraction, i, _) => seq![frac_glyph(n, i as nat, ' ')],
        Token::Currency => sym.currency,
        Token::Separator(c) => seq![c],
        _ => if !exp {
            Seq::empty()
        } else {
            match t {
                Token::ExponentUpper => seq![
                    if n.exp.len() > 0 || f.has_exp_0 {
                        sym.exponent_upper_sym
                    } else {
                        ' '
                    },
                ],
                Token::ExponentLower => seq![
                    if n.exp.len() > 0 || f.has_exp_0 {
                        sym.exponent_lower_sym
                    } else {
                        ' '
                    },
                ],
                Token::SignExp => seq![
                    if !n.exp_negative && sym.positive_sym == ' ' {
                        '+'
                    } else {
                        sign_glyph(n.exp_negative, sym)
                    },
                ],
                Token::PlusExp => seq![if n.exp_negative { '-' } else { '+' }],
                Token::Digit0(_, i) => exp_text(n, f, i as nat, None, '0'),
                Token::Digit(_, i) => exp_text(n, f, i as nat, None, ' '),
                Token::Numeric(_, i, can) => exp_text(
                    n,
                    f,
                    i as nat,
                    exp_sign_here(n, f, sym, i as nat, can),
                    ' ',
                ),
                _ => Seq::empty(),
            }
        },
    }
}

/// What the tokens write for the number `n`, one after the other.
/// Of several places for the sign the last one writes it.
pub open spec fn render_text(
    tokens: Seq<Token>,
    n: RawNumber,
    f: FormatModel,
    sym: Symbols,
    exp: bool,
) -> Seq<char>
    decreases tokens.len(),
{
    if tokens.len() == 0 {
        Seq::empty()
    } else {
        token_text(
            tokens[0],
            n,
            f,
            sym,
            exp,
            !uses_sign(tokens.drop_first(), n, f, sym),
        ) + render_text(tokens.drop_first(), n, f, sym, exp)
    }
}

/// Whether the number is too wide for the pattern, and how.
pub open spec fn width_error(n: RawNumber, f: FormatModel, exp: bool) -> Option<NumberFmtError> {
    if n.int.len() > f.len_int {
        Some(NumberFmtError::FmtLenInt)
    } else if exp && exp_width(n, f) > f.len_exp {
        Some(NumberFmtError::FmtLenExp)
    } else {
        None
    }
}

/// How rendering the plain decimal text `raw` ends.
///
/// A number that is too wide is refused before anything is written. A sign
/// that no token wrote is reported after the text was written.
pub open spec fn render_result(raw: Seq<u8>, f: FormatModel, sym: Symbols, exp: bool)
    -> Result<(), NumberFmtError> {
    let n = split_raw(raw);
    if width_error(n, f, exp) is Some {
        Err(width_error(n, f, exp)->0)
    } else if n.negative && !uses_sign(f.tokens, n, f, sym) {
        Err(NumberFmtError::FmtNoSign)
    } else if n.exp_negative && !uses_exp_sign(f.tokens, n, f, exp) {
        Err(NumberFmtError::FmtNoExpSign)
    } else {
        Ok(())
    }
}

/// What rendering the plain decimal text `raw` writes: nothing where the
/// number is too wide, else the text of every token.
pub open spec fn render_written(raw: Seq<u8>, f: FormatModel, sym: Symbols, exp: bool)
    -> Seq<char> {
    let n = split_raw(raw);
    if width_error(n, f, exp) is Some {
        Seq::empty()
    } else {
        render_text(f.tokens, n, f, sym, exp)
    }
}

/// The text of the tokens from `k` on is the text of the token at `k` and
/// then that of the tokens after it.
pub proof fn lemma_render_text_step(
    tokens: Seq<Token>,
    k: int,
    n: RawNumber,
    f: FormatModel,
    sym: Symbols,
    exp: bool,
)
    requires
        0 <= k < tokens.len(),
    ensures
        render_text(tokens.skip(k), n, f, sym, exp) == token_text(
            tokens[k],
            n,
            f,
            sym,
            exp,
            !uses_sign(tokens.skip(k + 1), n, f, sym),
        ) + render_text(tokens.skip(k + 1), n, f, sym, exp),
{
    assert(tokens.skip(k).drop_first() =~= tokens.skip(k + 1));
}

/// The tokens from `k` on hold a place for the sign exactly if one of them
/// is such a place.
pub proof fn lemma_sign_places_from(
    tokens: Seq<Token>,
    k: int,
    n: RawNumber,
    f: FormatModel,
    sym: Symbols,
)
    requires
        0 <= k <= tokens.len(),
    ensures
        uses_sign(tokens.skip(k), n, f, sym) <==> exists|j: int|
            k <= j < tokens.len() && is_sign_place(#[trigger] tokens[j], n, f, sym),
{
    let tail = tokens.skip(k);
    if uses_sign(tail, n, f, sym) {
        let j = choose|j: int| 0 <= j < tail.len() && is_sign_place(#[trigger] tail[j], n, f, sym);
        assert(tokens[k + j] == tail[j]);
    }
    if exists|j: int| k <= j < tokens.len() && is_sign_place(#[trigger] tokens[j], n, f, sym) {
        let j = choose|j: int|
            k <= j < tokens.len() && is_sign_place(#[trigger] tokens[j], n, f, sym);
        assert(tail[j - k] == tokens[j]);
    }
}

/// One more token uses the sign if the tokens before do or the token is a
/// place for it; the same for the sign of the exponent.
pub proof fn lemma_uses_sign_next(
    tokens: Seq<Token>,
    k: int,
    n: RawNumber,
    f: FormatModel,
    sym: Symbols,
    exp: bool,
)
    requires
        0 <= k < tokens.len(),
    ensures
        uses_sign(tokens.take(k + 1), n, f, sym) == (uses_sign(tokens.take(k), n, f, sym)
            || is_sign_place(tokens[k], n, f, sym)),
        uses_exp_sign(tokens.take(k + 1), n, f, exp) == (uses_exp_sign(tokens.take(k), n, f, exp)
            || writes_exp_sign(tokens[k], n, f, exp)),
{
    let short = tokens.take(k);
    let long = tokens.take(k + 1);
    assert(long[k] == tokens[k]);
    if uses_sign(short, n, f, sym) {
        let j = choose|j: int|
            0 <= j < short.len() && is_sign_place(#[trigger] short[j], n, f, sym);
        assert(long[j] == short[j]);
    }
    if uses_sign(long, n, f, sym) {
        let j = choose|j: int| 0 <= j < long.len() && is_sign_place(#[trigger] long[j], n, f, sym);
        if j < k {
            assert(short[j] == long[j]);
        }
    }
    if uses_exp_sign(short, n, f, exp) {
        let j = choose|j: int|
            0 <= j < short.len() && writes_exp_sign(#[trigger] short[j], n, f, exp);
        assert(long[j] == short[j]);
    }
    if uses_exp_sign(long, n, f, exp) {
        let j = choose|j: int|
            0 <= j < long.len() && writes_exp_sign(#[trigger] long[j], n, f, exp);
        if j < k {
            assert(short[j] == long[j]);
        }
    }
}

} // verus!
