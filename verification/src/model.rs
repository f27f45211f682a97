//! What a compiled pattern is: its tokens with their indices and flags, and
//! the numbers derived from them.

use vstd::prelude::*;
use crate::error::NumberFmtError;
use crate::symbols::Symbols;
use crate::token::{Mode, Token};

verus! {

/// The kinds of token that a pattern may hold only once.
#[derive(Debug, Clone, Copy, PartialEq, Eq, Structural)]
pub enum Unique {
    DecimalSep,
    Exponent,
    Sign,
    ExpSign,
}

/// The kind of `t`, if it is of a kind that must not repeat.
pub open spec fn unique_kind(t: Token) -> Option<Unique> {
    match t {
        Token::DecimalSep | Token::DecimalSepAlways => Some(Unique::DecimalSep),
        Token::ExponentLower | Token::ExponentUpper => Some(Unique::Exponent),
        Token::SignInt | Token::PlusInt => Some(Unique::Sign),
        Token::SignExp | Token::PlusExp => Some(Unique::ExpSign),
        _ => None,
    }
}

/// The error for a second token of kind `u`.
pub open spec fn repeat_error(u: Unique) -> NumberFmtError {
    match u {
        Unique::DecimalSep => NumberFmtError::ParseInvalidDecimalSep,
        Unique::Exponent => NumberFmtError::ParseInvalidExp,
        Unique::Sign => NumberFmtError::ParseInvalidSign,
        Unique::ExpSign => NumberFmtError::ParseInvalidExpSign,
    }
}

/// Whether `tokens` holds a token of kind `u`.
pub open spec fn holds_kind(tokens: Seq<Token>, u: Unique) -> bool {
    exists|k: int| 0 <= k < tokens.len() && unique_kind(#[trigger] tokens[k]) == Some(u)
}

/// The error for the leftmost token, at `from` or later, that repeats the
/// kind of a token before it.
pub open spec fn first_repeat(tokens: Seq<Token>, from: int) -> Option<NumberFmtError>
    decreases tokens.len() - from,
{
    if from < 0 || from >= tokens.len() {
        None
    } else {
        let u = unique_kind(tokens[from]);
        if u is Some && holds_kind(tokens.take(from), u->0) {
            Some(repeat_error(u->0))
        } else {
            first_repeat(tokens, from + 1)
        }
    }
}

/// Whether `t` stands for a digit in part `mode` of the number.
pub open spec fn is_digit_in(t: Token, mode: Mode) -> bool {
    match t {
        Token::Digit0(m, _) => m == mode,
        Token::Digit(m, _) => m == mode,
        Token::Numeric(m, _, _) => m == mode,
        _ => false,
    }
}

/// Whether `t` stands for a digit that cannot give way to a sign, in part
/// `mode` of the number: the masks `0` and `9`.
pub open spec fn is_fixed_digit_in(t: Token, mode: Mode) -> bool {
    match t {
        Token::Digit0(m, _) => m == mode,
        Token::Digit(m, _) => m == mode,
        _ => false,
    }
}

/// How many tokens of `tokens` stand for a digit in part `mode`.
pub open spec fn count_digits(tokens: Seq<Token>, mode: Mode) -> nat
    decreases tokens.len(),
{
    if tokens.len() == 0 {
        0
    } else {
        (if is_digit_in(tokens[0], mode) { 1nat } else { 0nat }) + count_digits(
            tokens.drop_first(),
            mode,
        )
    }
}

/// Whether `tokens` holds the mask `0` in part `mode`.
pub open spec fn holds_digit0(tokens: Seq<Token>, mode: Mode) -> bool {
    exists|k: int|
        0 <= k < tokens.len() && (#[trigger] tokens[k] matches Token::Digit0(m, _) && m == mode)
}

/// The least index at which the sign of the number may stand: one more than
/// the index of the leftmost `0` or `9` of the integer part, zero without
/// one.
pub open spec fn min_int_sign_of(tokens: Seq<Token>) -> nat
    decreases tokens.len(),
{
    if tokens.len() == 0 {
        0
    } else if is_fixed_digit_in(tokens[0], Mode::Integer) {
        count_digits(tokens, Mode::Integer)
    } else {
        min_int_sign_of(tokens.drop_first())
    }
}

/// The least index at which the sign of the exponent may stand. The leftmost
/// `0` or `9` of the exponent decides: one more than its index for `0`, its
/// index for `9`; zero without one.
pub open spec fn min_exp_sign_of(tokens: Seq<Token>) -> nat
    decreases tokens.len(),
{
    if tokens.len() == 0 {
        0
    } else {
        match tokens[0] {
            Token::Digit0(Mode::Exponent, _) => count_digits(tokens, Mode::Exponent),
            Token::Digit(Mode::Exponent, _) => count_digits(tokens.drop_first(), Mode::Exponent),
            _ => min_exp_sign_of(tokens.drop_first()),
        }
    }
}

/// The index of a digit token at position `k` in part `mode`: for the
/// fraction the number of fraction digits before it, for the integer part
/// and the exponent the number of digits of that part after it.
pub open spec fn digit_index(tokens: Seq<Token>, k: int, mode: Mode) -> usize {
    match mode {
        Mode::Fraction => count_digits(tokens.take(k), mode) as usize,
        _ => count_digits(tokens.skip(k + 1), mode) as usize,
    }
}

/// Whether a `#` of the integer part at position `k` may hold the sign:
/// the pattern has no sign of its own, and the token directly right of it is
/// no grouping separator, unless the symbols have no grouping.
pub open spec fn int_sign_allowed(tokens: Seq<Token>, k: int, sym: Symbols) -> bool {
    &&& !holds_kind(tokens, Unique::Sign)
    &&& (sym.decimal_grp is None || !(k + 1 < tokens.len() && tokens[k + 1] is GroupingSep))
}

/// The token `t` with its index and flag filled in: `index` is the index of
/// its part of the number, `int_sign` says whether a `#` of the integer part
/// may hold the sign, `grp_sign` whether a grouping separator may, and
/// `exp_sign` whether a `#` of the exponent may hold the exponent's sign.
pub open spec fn fill_token(
    t: Token,
    index: usize,
    int_sign: bool,
    grp_sign: bool,
    exp_sign: bool,
) -> Token {
    match t {
        Token::Digit0(m, _) => Token::Digit0(m, index),
        Token::Digit(m, _) => Token::Digit(m, index),
        Token::Numeric(m, _, _) => Token::Numeric(
            m,
            index,
            match m {
                Mode::Integer => int_sign,
                Mode::Fraction => false,
                Mode::Exponent => exp_sign,
            },
        ),
        Token::GroupingSep(_, _) => Token::GroupingSep(index, grp_sign),
        t => t,
    }
}

/// The part of the number whose digits give the token `t` its index.
pub open spec fn index_mode(t: Token) -> Mode {
    match t {
        Token::Digit0(m, _) => m,
        Token::Digit(m, _) => m,
        Token::Numeric(m, _, _) => m,
        _ => Mode::Integer,
    }
}

/// The token at position `k` with its index and flag filled in.
pub open spec fn compiled_token(tokens: Seq<Token>, k: int, sym: Symbols) -> Token {
    fill_token(
        tokens[k],
        digit_index(tokens, k, index_mode(tokens[k])),
        int_sign_allowed(tokens, k, sym),
        !holds_kind(tokens, Unique::Sign),
        !holds_kind(tokens, Unique::ExpSign),
    )
}

/// A compiled pattern as a mathematical value.
pub struct FormatModel {
    /// The tokens, with indices and flags.
    pub tokens: Seq<Token>,
    /// The least index at which the sign of the number may stand.
    pub min_int_sign: nat,
    /// The number of integer digits.
    pub len_int: nat,
    /// Whether the pattern has an exponent marker.
    pub has_exp: bool,
    /// Whether the exponent has a `0`.
    pub has_exp_0: bool,
    /// The least index at which the sign of the exponent may stand.
    pub min_exp_sign: nat,
    /// The number of exponent digits.
    pub len_exp: nat,
    /// Whether the fraction has a `0`.
    pub has_frac_0: bool,
    /// The number of fraction digits.
    pub len_frac: nat,
    /// The symbols the pattern was compiled with.
    pub sym: Symbols,
}

/// The compiled form of `tokens` with the symbols `sym`, whatever indices and
/// flags `tokens` held before.
pub open spec fn compiled(tokens: Seq<Token>, sym: Symbols) -> FormatModel {
    FormatModel {
        tokens: Seq::new(tokens.len(), |k: int| compiled_token(tokens, k, sym)),
        min_int_sign: min_int_sign_of(tokens),
        len_int: count_digits(tokens, Mode::Integer),
        has_exp: holds_kind(tokens, Unique::Exponent),
        has_exp_0: holds_digit0(tokens, Mode::Exponent),
        min_exp_sign: min_exp_sign_of(tokens),
        len_exp: count_digits(tokens, Mode::Exponent),
        has_frac_0: holds_digit0(tokens, Mode::Fraction),
        len_frac: count_digits(tokens, Mode::Fraction),
        sym,
    }
}

/// Compiling `tokens`: an error where a decimal separator, an exponent
/// marker, a sign or an exponent sign repeats, decided by the leftmost
/// repetition; else the compiled form.
pub open spec fn compile_tokens(tokens: Seq<Token>, sym: Symbols) -> Result<
    FormatModel,
    NumberFmtError,
> {
    match first_repeat(tokens, 0) {
        Some(e) => Err(e),
        None => Ok(compiled(tokens, sym)),
    }
}

/// Whether `f` is a compiled pattern: what compiling some tokens with its
/// symbols gives.
pub open spec fn is_compiled(f: FormatModel) -> bool {
    exists|source: Seq<Token>|
        source.len() <= usize::MAX && #[trigger] compile_tokens(source, f.sym) == Ok::<
            FormatModel,
            NumberFmtError,
        >(f)
}

/// Compiling the text of a pattern: tokenizing, then compiling the tokens.
pub open spec fn compile_pattern(pattern: Seq<char>, sym: Symbols) -> Result<
    FormatModel,
    NumberFmtError,
> {
    match crate::token::pattern_tokens(pattern) {
        Ok(tokens) => compile_tokens(tokens, sym),
        Err(e) => Err(e),
    }
}

/// No more tokens stand for digits than there are tokens.
pub proof fn lemma_count_digits_bound(tokens: Seq<Token>, mode: Mode)
    ensures
        count_digits(tokens, mode) <= tokens.len(),
    decreases tokens.len(),
{
    if tokens.len() > 0 {
        lemma_count_digits_bound(tokens.drop_first(), mode);
    }
}

/// The digits of a sequence are those before a position and those from it on.
pub proof fn lemma_count_digits_split(tokens: Seq<Token>, k: int, mode: Mode)
    requires
        0 <= k <= tokens.len(),
    ensures
        count_digits(tokens, mode) == count_digits(tokens.take(k), mode) + count_digits(
            tokens.skip(k),
            mode,
        ),
    decreases k,
{
    if k == 0 {
        assert(tokens.skip(0) =~= tokens);
        assert(tokens.take(0) =~= Seq::<Token>::empty());
    } else {
        let rest = tokens.drop_first();
        lemma_count_digits_split(rest, k - 1, mode);
        assert(rest.take(k - 1) =~= tokens.take(k).drop_first());
        assert(rest.skip(k - 1) =~= tokens.skip(k));
        assert(tokens.take(k)[0] == tokens[0]);
    }
}

/// The digits from a position on are the one at that position, if it is one,
/// and those after it.
pub proof fn lemma_count_digits_step(tokens: Seq<Token>, k: int, mode: Mode)
    requires
        0 <= k < tokens.len(),
    ensures
        count_digits(tokens.skip(k), mode) == (if is_digit_in(tokens[k], mode) {
            1nat
        } else {
            0nat
        }) + count_digits(tokens.skip(k + 1), mode),
{
    assert(tokens.skip(k).drop_first() =~= tokens.skip(k + 1));
}

/// One more token adds one to the digits of a part if it is one of them.
pub proof fn lemma_count_digits_next(tokens: Seq<Token>, i: int, mode: Mode)
    requires
        0 <= i < tokens.len(),
    ensures
        count_digits(tokens.take(i + 1), mode) == count_digits(tokens.take(i), mode) + (
        if is_digit_in(tokens[i], mode) {
            1nat
        } else {
            0nat
        }),
{
    let long = tokens.take(i + 1);
    lemma_count_digits_split(long, i, mode);
    assert(long.take(i) =~= tokens.take(i));
    lemma_count_digits_step(long, i, mode);
    assert(long.skip(i + 1) =~= Seq::<Token>::empty());
}

} // verus!
