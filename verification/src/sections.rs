//! The layout of a pattern in sections: integer part, fraction, exponent.

use vstd::prelude::*;
use crate::model::{is_digit_in, holds_kind, unique_kind, Unique};
use crate::readback::is_exp_token;
use crate::token::{mask_token, mode_after, pattern_tokens, scan_pattern, Mode, Token};

verus! {

/// Whether the token `t` may stand in the part `mode` of a pattern: a digit
/// in its own part, the decimal separator and the sign of the number in the
/// integer part, the sign of the exponent in the exponent, and the exponent
/// marker before the exponent.
pub open spec fn fits_section(t: Token, mode: Mode) -> bool {
    match t {
        Token::Digit0(m, _) => m == mode,
        Token::Digit(m, _) => m == mode,
        Token::Numeric(m, _, _) => m == mode,
        Token::DecimalSep => mode == Mode::Integer,
        Token::DecimalSepAlways => mode == Mode::Integer,
        Token::SignInt => mode == Mode::Integer,
        Token::PlusInt => mode == Mode::Integer,
        Token::SignExp => mode == Mode::Exponent,
        Token::PlusExp => mode == Mode::Exponent,
        Token::ExponentUpper => mode != Mode::Exponent,
        Token::ExponentLower => mode != Mode::Exponent,
        _ => true,
    }
}

/// The part of a pattern behind the token `t`, which stands in part `mode`.
pub open spec fn section_after(t: Token, mode: Mode) -> Mode {
    match t {
        Token::DecimalSep => Mode::Fraction,
        Token::DecimalSepAlways => Mode::Fraction,
        Token::ExponentUpper => Mode::Exponent,
        Token::ExponentLower => Mode::Exponent,
        _ => mode,
    }
}

/// Whether `tokens`, read from part `mode` on, are laid out as the text of a
/// pattern lays them out: the integer part, then the decimal separator and
/// the fraction, then the exponent marker and the exponent.
pub open spec fn sectioned(tokens: Seq<Token>, mode: Mode) -> bool
    decreases tokens.len(),
{
    tokens.len() == 0 || (fits_section(tokens[0], mode) && sectioned(
        tokens.drop_first(),
        section_after(tokens[0], mode),
    ))
}

/// A token that fits its section, before tokens laid out in sections from
/// the section behind it, gives tokens laid out in sections.
pub(crate) proof fn lemma_sectioned_prepend(t: Token, more: Seq<Token>, mode: Mode)
    requires
        fits_section(t, mode),
        sectioned(more, section_after(t, mode)),
    ensures
        sectioned(seq![t] + more, mode),
{
    let all = seq![t] + more;
    assert(all.drop_first() =~= more);
    assert(all[0] == t);
}

/// The tokens of the text of a pattern are laid out in sections.
pub(crate) proof fn lemma_scan_is_sectioned(pattern: Seq<char>, mode: Mode, escaped: bool)
    requires
        scan_pattern(pattern, mode, escaped) is Ok,
    ensures
        sectioned(scan_pattern(pattern, mode, escaped)->Ok_0, mode),
    decreases pattern.len(),
{
    if pattern.len() > 0 {
        let c = pattern[0];
        let rest = pattern.drop_first();
        if escaped {
            lemma_scan_is_sectioned(rest, mode, false);
            lemma_sectioned_prepend(
                Token::Separator(c),
                scan_pattern(rest, mode, false)->Ok_0,
                mode,
            );
        } else if c == '\\' {
            lemma_scan_is_sectioned(rest, mode, true);
        } else {
            lemma_scan_is_sectioned(rest, mode_after(c, mode), false);
            lemma_sectioned_prepend(
                mask_token(c, mode)->Ok_0,
                scan_pattern(rest, mode_after(c, mode), false)->Ok_0,
                mode,
            );
        }
    }
}

/// The tokens of the text of a pattern are laid out in sections, from the
/// integer part on.
pub proof fn lemma_pattern_is_sectioned(pattern: Seq<char>)
    requires
        pattern_tokens(pattern) is Ok,
    ensures
        sectioned(pattern_tokens(pattern)->Ok_0, Mode::Integer),
{
    lemma_scan_is_sectioned(pattern, Mode::Integer, false);
}

/// The part of a pattern in which the token at `k` stands, when the first
/// token stands in part `mode`.
pub open spec fn section_at(tokens: Seq<Token>, k: int, mode: Mode) -> Mode
    decreases k,
{
    if k <= 0 || tokens.len() == 0 {
        mode
    } else {
        section_at(tokens.drop_first(), k - 1, section_after(tokens[0], mode))
    }
}

/// Tokens laid out in sections are so from every position on, and the token
/// there fits its section.
pub(crate) proof fn lemma_sectioned_from(tokens: Seq<Token>, k: int, mode: Mode)
    requires
        sectioned(tokens, mode),
        0 <= k <= tokens.len(),
    ensures
        sectioned(tokens.skip(k), section_at(tokens, k, mode)),
        k < tokens.len() ==> fits_section(tokens[k], section_at(tokens, k, mode)),
        mode == Mode::Exponent ==> section_at(tokens, k, mode) == Mode::Exponent,
        mode == Mode::Fraction ==> section_at(tokens, k, mode) != Mode::Integer,
        section_at(tokens, k, mode) == Mode::Exponent && mode != Mode::Exponent ==> holds_kind(
            tokens.take(k),
            Unique::Exponent,
        ),
        section_at(tokens, k, mode) == Mode::Fraction && mode != Mode::Fraction ==> holds_kind(
            tokens.take(k),
            Unique::DecimalSep,
        ),
    decreases k,
{
    if k == 0 {
        assert(tokens.skip(0) =~= tokens);
    } else {
        let rest = tokens.drop_first();
        let next = section_after(tokens[0], mode);
        lemma_sectioned_from(rest, k - 1, next);
        assert(rest.skip(k - 1) =~= tokens.skip(k));
        if k < tokens.len() {
            assert(rest[k - 1] == tokens[k]);
        }
        if section_at(tokens, k, mode) == Mode::Exponent && mode != Mode::Exponent {
            if next == Mode::Exponent {
                assert(tokens.take(k)[0] == tokens[0]);
            } else {
                let j = choose|j: int|
                    0 <= j < rest.take(k - 1).len() && unique_kind(#[trigger] rest.take(k - 1)[j])
                        == Some(Unique::Exponent);
                assert(tokens.take(k)[j + 1] == rest.take(k - 1)[j]);
            }
        }
        if section_at(tokens, k, mode) == Mode::Fraction && mode != Mode::Fraction {
            if next == Mode::Fraction {
                assert(tokens.take(k)[0] == tokens[0]);
            } else {
                let j = choose|j: int|
                    0 <= j < rest.take(k - 1).len() && unique_kind(#[trigger] rest.take(k - 1)[j])
                        == Some(Unique::DecimalSep);
                assert(tokens.take(k)[j + 1] == rest.take(k - 1)[j]);
            }
        }
    }
}

/// In tokens laid out in sections, a token of the exponent stands behind an
/// exponent marker or is one.
pub(crate) proof fn lemma_exponent_has_marker(tokens: Seq<Token>, k: int)
    requires
        sectioned(tokens, Mode::Integer),
        0 <= k < tokens.len(),
        is_exp_token(tokens[k]),
    ensures
        holds_kind(tokens, Unique::Exponent),
{
    lemma_sectioned_from(tokens, k, Mode::Integer);
    if tokens[k] is ExponentUpper || tokens[k] is ExponentLower {
    } else {
        let j = choose|j: int|
            0 <= j < tokens.take(k).len() && unique_kind(#[trigger] tokens.take(k)[j]) == Some(
                Unique::Exponent,
            );
        assert(tokens[j] == tokens.take(k)[j]);
    }
}

/// The text of a pattern has at least as many characters as tokens.
pub(crate) proof fn lemma_scan_length(pattern: Seq<char>, mode: Mode, escaped: bool)
    requires
        scan_pattern(pattern, mode, escaped) is Ok,
    ensures
        scan_pattern(pattern, mode, escaped)->Ok_0.len() <= pattern.len(),
    decreases pattern.len(),
{
    if pattern.len() > 0 {
        let c = pattern[0];
        let rest = pattern.drop_first();
        if escaped {
            lemma_scan_length(rest, mode, false);
            lemma_prepended(Token::Separator(c), scan_pattern(rest, mode, false)->Ok_0);
        } else if c == '\\' {
            lemma_scan_length(rest, mode, true);
        } else {
            lemma_scan_length(rest, mode_after(c, mode), false);
            lemma_prepended(
                mask_token(c, mode)->Ok_0,
                scan_pattern(rest, mode_after(c, mode), false)->Ok_0,
            );
        }
    }
}

/// The tokens of `seq![t] + more` are `t` and then those of `more`.
pub(crate) proof fn lemma_prepended(t: Token, more: Seq<Token>)
    ensures
        (seq![t] + more).len() == more.len() + 1,
        (seq![t] + more)[0] == t,
        forall|k: int| 0 < k <= more.len() ==> #[trigger] (seq![t] + more)[k] == more[k - 1],
{
}

/// In tokens laid out in sections, a digit of the fraction stands behind a
/// decimal separator.
pub(crate) proof fn lemma_fraction_has_separator(tokens: Seq<Token>, k: int)
    requires
        sectioned(tokens, Mode::Integer),
        0 <= k < tokens.len(),
        is_digit_in(tokens[k], Mode::Fraction),
    ensures
        holds_kind(tokens, Unique::DecimalSep),
{
    lemma_sectioned_from(tokens, k, Mode::Integer);
    let j = choose|j: int|
        0 <= j < tokens.take(k).len() && unique_kind(#[trigger] tokens.take(k)[j]) == Some(
            Unique::DecimalSep,
        );
    assert(tokens[j] == tokens.take(k)[j]);
}

} // verus!
