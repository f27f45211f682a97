//! How often the minus sign stands in what was rendered: once for a negative
//! number, and never for another.

use vstd::prelude::*;
use crate::laws::lemma_kinds_are_unique;
use crate::model::{compile_pattern, compile_tokens, compiled, compiled_token, FormatModel};
use crate::raw::{all_digits, split_raw, RawNumber};
use crate::render::{
    is_sign_place, lemma_render_text_step, lemma_sign_places_from, render_result, render_text,
    render_written, sign_index, token_text, uses_sign,
};
use crate::sections::{lemma_prepended, lemma_scan_length};
use crate::symbols::{default_symbols, Symbols};
use crate::token::{mask_token, mode_after, pattern_tokens, scan_pattern, Mode, Token};

verus! {

/// How often the character `c` stands in `text`.
pub open spec fn count_char(text: Seq<char>, c: char) -> nat
    decreases text.len(),
{
    if text.len() == 0 {
        0
    } else {
        (if text[0] == c { 1nat } else { 0nat }) + count_char(text.drop_first(), c)
    }
}

/// Whether the token `t` writes no `-` of its own and nothing for an
/// exponent: it is no separator `-` and no token of the exponent.
pub open spec fn is_plain(t: Token) -> bool {
    match t {
        Token::Separator(c) => c != '-',
        Token::Digit0(m, _) => m != Mode::Exponent,
        Token::Digit(m, _) => m != Mode::Exponent,
        Token::Numeric(m, _, _) => m != Mode::Exponent,
        Token::ExponentUpper => false,
        Token::ExponentLower => false,
        Token::SignExp => false,
        Token::PlusExp => false,
        _ => true,
    }
}

/// Whether all of `tokens` are plain.
pub open spec fn all_plain(tokens: Seq<Token>) -> bool {
    forall|k: int| 0 <= k < tokens.len() ==> is_plain(#[trigger] tokens[k])
}

/// Whether `-` is the negative sign of the symbols `sym` and nothing else
/// of them.
pub open spec fn minus_is_sign(sym: Symbols) -> bool {
    &&& sym.negative_sym == '-'
    &&& sym.positive_sym != '-'
    &&& sym.decimal_sep != '-'
    &&& sym.decimal_grp != Some('-')
    &&& count_char(sym.currency, '-') == 0
}

/// A character of the pattern that neither escapes the next one nor starts
/// an exponent.
pub open spec fn is_plain_mask(c: char) -> bool {
    c != '\\' && c != 'e' && c != 'E'
}

/// Two texts, one after the other, hold a character as often as both
/// together.
pub proof fn lemma_count_char_concat(a: Seq<char>, b: Seq<char>, c: char)
    ensures
        count_char(a + b, c) == count_char(a, c) + count_char(b, c),
    decreases a.len(),
{
    if a.len() == 0 {
        assert(a + b =~= b);
    } else {
        assert((a + b).drop_first() =~= a.drop_first() + b);
        lemma_count_char_concat(a.drop_first(), b, c);
    }
}

/// A text of one character holds that character once.
pub proof fn lemma_count_char_one(x: char, c: char)
    ensures
        count_char(seq![x], c) == if x == c { 1nat } else { 0nat },
{
    assert(seq![x].drop_first() =~= Seq::<char>::empty());
    assert(count_char(seq![x].drop_first(), c) == 0);
}

/// The default symbols have no `-` but the negative sign.
pub proof fn lemma_default_minus_is_sign()
    ensures
        minus_is_sign(default_symbols()),
{
    lemma_count_char_one('$', '-');
}

/// A plain token writes a `-` exactly if the number is negative and the
/// token writes its sign: it is a sign token, or the last place for the
/// sign.
pub proof fn lemma_token_minus(
    t: Token,
    n: RawNumber,
    f: FormatModel,
    sym: Symbols,
    exp: bool,
    last: bool,
)
    requires
        is_plain(t),
        minus_is_sign(sym),
        all_digits(n.int),
        all_digits(n.frac),
    ensures
        count_char(token_text(t, n, f, sym, exp, last), '-') == if n.negative && is_sign_place(
            t,
            n,
            f,
            sym,
        ) && (t is SignInt || t is PlusInt || last) {
            1nat
        } else {
            0nat
        },
{
    let text = token_text(t, n, f, sym, exp, last);
    if t is Currency {
    } else if text.len() == 0 {
    } else {
        assert(text =~= seq![text[0]]);
        lemma_count_char_one(text[0], '-');
        match t {
            Token::Digit0(Mode::Integer, i) | Token::Digit(Mode::Integer, i) => {
                if n.int.len() > i {
                    assert(48 <= n.int[n.int.len() - 1 - i] <= 57);
                }
            },
            Token::Numeric(Mode::Integer, i, _) | Token::GroupingSep(i, _) => {
                if n.int.len() > i {
                    assert(48 <= n.int[n.int.len() - 1 - i] <= 57);
                    assert(sign_index(n, f) != i);
                }
            },
            Token::Digit0(Mode::Fraction, i)
            | Token::Digit(Mode::Fraction, i)
            | Token::Numeric(Mode::Fraction, i, _) => {
                if n.frac.len() > i {
                    assert(48 <= n.frac[i as int] <= 57);
                }
            },
            _ => {},
        }
    }
}

/// The plain tokens of a compiled pattern from `k` on write one `-` for a
/// negative number if one of them is a place for the sign, and none else.
pub proof fn lemma_minus_from(
    source: Seq<Token>,
    compile_sym: Symbols,
    n: RawNumber,
    sym: Symbols,
    exp: bool,
    k: int,
)
    requires
        source.len() <= usize::MAX,
        compile_tokens(source, compile_sym) is Ok,
        all_plain(source),
        minus_is_sign(sym),
        all_digits(n.int),
        all_digits(n.frac),
        0 <= k <= source.len(),
    ensures
        count_char(
            render_text(
                compiled(source, compile_sym).tokens.skip(k),
                n,
                compiled(source, compile_sym),
                sym,
                exp,
            ),
            '-',
        ) == if n.negative && uses_sign(
            compiled(source, compile_sym).tokens.skip(k),
            n,
            compiled(source, compile_sym),
            sym,
        ) {
            1nat
        } else {
            0nat
        },
    decreases source.len() - k,
{
    let f = compiled(source, compile_sym);
    let tokens = f.tokens;
    lemma_sign_places_from(tokens, k, n, f, sym);
    if k < source.len() {
        lemma_minus_from(source, compile_sym, n, sym, exp, k + 1);
        lemma_sign_places_from(tokens, k + 1, n, f, sym);
        lemma_render_text_step(tokens, k, n, f, sym, exp);
        let last = !uses_sign(tokens.skip(k + 1), n, f, sym);
        let here = token_text(tokens[k], n, f, sym, exp, last);
        let rest = render_text(tokens.skip(k + 1), n, f, sym, exp);
        lemma_count_char_concat(here, rest, '-');
        assert(tokens[k] == compiled_token(source, k, compile_sym));
        assert(is_plain(source[k]));
        lemma_token_minus(tokens[k], n, f, sym, exp, last);
        if (tokens[k] is SignInt || tokens[k] is PlusInt) && !last {
            // a sign token is the only place for the sign
            let j = choose|j: int|
                k + 1 <= j < tokens.len() && is_sign_place(#[trigger] tokens[j], n, f, sym);
            assert(tokens[j] == compiled_token(source, j, compile_sym));
            lemma_kinds_are_unique(source, k, j);
        }
    } else {
        assert(tokens.skip(k) =~= Seq::<Token>::empty());
    }
}

/// Sign exclusivity, counted over the text: what rendering with a compiled
/// pattern of plain tokens writes for a number that it accepts holds the
/// sign `-` once if the number is negative, and no `-` if it is not.
pub proof fn lemma_minus_written_once(
    source: Seq<Token>,
    compile_sym: Symbols,
    raw: Seq<u8>,
    sym: Symbols,
    exp: bool,
)
    requires
        source.len() <= usize::MAX,
        compile_tokens(source, compile_sym) is Ok,
        all_plain(source),
        minus_is_sign(sym),
        all_digits(split_raw(raw).int),
        all_digits(split_raw(raw).frac),
        render_result(raw, compiled(source, compile_sym), sym, exp) is Ok,
    ensures
        count_char(render_written(raw, compiled(source, compile_sym), sym, exp), '-')
            == if split_raw(raw).negative {
            1nat
        } else {
            0nat
        },
{
    let f = compiled(source, compile_sym);
    lemma_minus_from(source, compile_sym, split_raw(raw), sym, exp, 0);
    assert(f.tokens.skip(0) =~= f.tokens);
}

/// A pattern without a backslash and without an exponent has plain tokens.
pub proof fn lemma_plain_masks(pattern: Seq<char>, mode: Mode)
    requires
        mode != Mode::Exponent,
        forall|i: int| 0 <= i < pattern.len() ==> is_plain_mask(#[trigger] pattern[i]),
        scan_pattern(pattern, mode, false) is Ok,
    ensures
        all_plain(scan_pattern(pattern, mode, false)->Ok_0),
    decreases pattern.len(),
{
    if pattern.len() > 0 {
        let c = pattern[0];
        let rest = pattern.drop_first();
        assert(is_plain_mask(c));
        assert forall|i: int| 0 <= i < rest.len() implies is_plain_mask(#[trigger] rest[i]) by {
            assert(rest[i] == pattern[i + 1]);
        }
        let t = mask_token(c, mode)->Ok_0;
        let more = scan_pattern(rest, mode_after(c, mode), false)->Ok_0;
        lemma_plain_masks(rest, mode_after(c, mode));
        lemma_prepended(t, more);
        assert(is_plain(t));
    }
}

/// Sign exclusivity, counted over the text, for the text of a pattern: a
/// pattern without a backslash and without an exponent, compiled and
/// rendered with symbols whose only `-` is the negative sign, writes the `-`
/// once for a negative number that it accepts, and no `-` for another.
pub proof fn lemma_minus_written_once_pattern(pattern: Seq<char>, sym: Symbols, raw: Seq<u8>)
    requires
        pattern.len() <= usize::MAX,
        forall|i: int| 0 <= i < pattern.len() ==> is_plain_mask(#[trigger] pattern[i]),
        compile_pattern(pattern, sym) is Ok,
        minus_is_sign(sym),
        all_digits(split_raw(raw).int),
        all_digits(split_raw(raw).frac),
        render_result(
            raw,
            compile_pattern(pattern, sym)->Ok_0,
            sym,
            compile_pattern(pattern, sym)->Ok_0.has_exp,
        ) is Ok,
    ensures
        count_char(
            render_written(
                raw,
                compile_pattern(pattern, sym)->Ok_0,
                sym,
                compile_pattern(pattern, sym)->Ok_0.has_exp,
            ),
            '-',
        ) == if split_raw(raw).negative {
            1nat
        } else {
            0nat
        },
{
    let source = pattern_tokens(pattern)->Ok_0;
    lemma_scan_length(pattern, Mode::Integer, false);
    lemma_plain_masks(pattern, Mode::Integer);
    lemma_minus_written_once(source, sym, raw, sym, compiled(source, sym).has_exp);
}

} // verus!
