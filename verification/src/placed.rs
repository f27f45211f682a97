//! A placed pattern: a compiled pattern with one place for the sign at each
//! index. Of the tokens that may hold the sign at an index only the last
//! keeps its flag. A placed pattern writes what the compiled pattern writes
//! and reads what it reads, and what it writes is told token by token,
//! whatever comes after a token.

use vstd::prelude::*;
use crate::collected::points;
use crate::laws::{lemma_digits_between, lemma_kinds_are_unique};
use crate::model::{
    compile_tokens, compiled, compiled_token, count_digits, digit_index, fill_token,
    holds_digit0, holds_kind, index_mode, is_digit_in, lemma_count_digits_bound,
    lemma_count_digits_step, min_exp_sign_of, min_int_sign_of, FormatModel, Unique,
};
use crate::raw::RawNumber;
use crate::render::{
    exp_padding, exp_sign_index, exp_width, is_sign_place, lemma_sign_places_from, render_text,
    sign_index, token_text, uses_sign,
};
use crate::symbols::Symbols;
use crate::token::{Mode, Token};
use crate::unmap::{passes_over, read_glyph, unmap_tokens, Unmapped};

verus! {

/// Whether a grouping separator stands among `tokens` before the first digit
/// of the integer part.
pub open spec fn group_ahead(tokens: Seq<Token>) -> bool
    decreases tokens.len(),
{
    if tokens.len() == 0 {
        false
    } else if tokens[0] is GroupingSep {
        true
    } else if is_digit_in(tokens[0], Mode::Integer) {
        false
    } else {
        group_ahead(tokens.drop_first())
    }
}

/// Whether a `#` of the integer part at position `k` is the last place for
/// the sign at its index: the pattern has no sign of its own, and no
/// grouping separator stands between it and the next digit, unless the
/// symbols have no grouping.
pub open spec fn placed_int_sign(tokens: Seq<Token>, k: int, sym: Symbols) -> bool {
    &&& !holds_kind(tokens, Unique::Sign)
    &&& (sym.decimal_grp is None || !group_ahead(tokens.skip(k + 1)))
}

/// Whether a grouping separator at position `k` is the last place for the
/// sign at its index: the pattern has no sign of its own, the symbols
/// group, and it is the last grouping separator before the next digit.
pub open spec fn placed_group_sign(tokens: Seq<Token>, k: int, sym: Symbols) -> bool {
    &&& !holds_kind(tokens, Unique::Sign)
    &&& sym.decimal_grp is Some
    &&& !group_ahead(tokens.skip(k + 1))
}

/// The token at position `k` with its index filled in, and its flag if it
/// is the last place for the sign at its index.
pub open spec fn placed_token(tokens: Seq<Token>, k: int, sym: Symbols) -> Token {
    fill_token(
        tokens[k],
        digit_index(tokens, k, index_mode(tokens[k])),
        placed_int_sign(tokens, k, sym),
        placed_group_sign(tokens, k, sym),
        !holds_kind(tokens, Unique::ExpSign),
    )
}

/// The compiled form of `tokens` with one place for the sign at each index.
pub open spec fn placed(tokens: Seq<Token>, sym: Symbols) -> FormatModel {
    FormatModel {
        tokens: Seq::new(tokens.len(), |k: int| placed_token(tokens, k, sym)),
        min_int_sign: min_int_sign_of(tokens),
        len_int: count_digits(tokens, Mode::Integer),
        has_exp: holds_kind(tokens, Unique::Exponent),
        has_exp_0: holds_digit0(tokens, Mode::Exponent),
        min_exp_sign: min_exp_sign_of(tokens),
        len_exp: count_digits(tokens, Mode::Exponent),
        has_frac_0: holds_digit0(tokens, Mode::Fraction),
        len_frac: count_digits(tokens, Mode::Fraction),
        sym,
    }
}

/// Whether at most one of `tokens` is a place for the sign of the number.
pub open spec fn one_sign_place(tokens: Seq<Token>, n: RawNumber, f: FormatModel, sym: Symbols)
    -> bool {
    forall|j: int, k: int|
        0 <= j < k < tokens.len() ==> !(is_sign_place(#[trigger] tokens[j], n, f, sym)
            && is_sign_place(#[trigger] tokens[k], n, f, sym))
}

/// What the tokens write for the number `n` if every place for the sign
/// writes it.
pub open spec fn flagged_text(
    tokens: Seq<Token>,
    n: RawNumber,
    f: FormatModel,
    sym: Symbols,
    exp: bool,
) -> Seq<char>
    decreases tokens.len(),
{
    if tokens.len() == 0 {
        Seq::empty()
    } else {
        token_text(tokens[0], n, f, sym, exp, true) + flagged_text(
            tokens.drop_first(),
            n,
            f,
            sym,
            exp,
        )
    }
}

/// A grouping separator with no digit of the integer part between a
/// position and itself stands ahead of that position.
pub(crate) proof fn lemma_group_ahead(tokens: Seq<Token>, j: int, p: int)
    requires
        0 <= j < p < tokens.len(),
        tokens[p] is GroupingSep,
        count_digits(tokens.subrange(j + 1, p), Mode::Integer) == 0,
    ensures
        group_ahead(tokens.skip(j + 1)),
    decreases p - j,
{
    let tail = tokens.skip(j + 1);
    assert(tail[0] == tokens[j + 1]);
    if j + 1 < p {
        let between = tokens.subrange(j + 1, p);
        assert(between[0] == tokens[j + 1]);
        assert(between.drop_first() =~= tokens.subrange(j + 2, p));
        assert(tail.drop_first() =~= tokens.skip(j + 2));
        lemma_group_ahead(tokens, j + 1, p);
    }
}

/// A pattern with one place for the sign at each index has at most one
/// place for the sign of a number, whatever the number and the symbols.
pub(crate) proof fn lemma_placed_one_place(
    source: Seq<Token>,
    compile_sym: Symbols,
    n: RawNumber,
    sym: Symbols,
)
    requires
        source.len() <= usize::MAX,
        compile_tokens(source, compile_sym) is Ok,
    ensures
        one_sign_place(
            placed(source, compile_sym).tokens,
            n,
            placed(source, compile_sym),
            sym,
        ),
{
    let f = placed(source, compile_sym);
    assert forall|j: int, k: int| 0 <= j < k < f.tokens.len() implies !(is_sign_place(
        #[trigger] f.tokens[j],
        n,
        f,
        sym,
    ) && is_sign_place(#[trigger] f.tokens[k], n, f, sym)) by {
        if is_sign_place(f.tokens[j], n, f, sym) && is_sign_place(f.tokens[k], n, f, sym) {
            assert(f.tokens[j] == placed_token(source, j, compile_sym));
            assert(f.tokens[k] == placed_token(source, k, compile_sym));
            if holds_kind(source, Unique::Sign) {
                // only the sign tokens write, and there is one of them
                lemma_kinds_are_unique(source, j, k);
            } else {
                lemma_count_digits_bound(source.skip(j + 1), Mode::Integer);
                lemma_count_digits_bound(source.skip(k + 1), Mode::Integer);
                lemma_digits_between(source, j, k, Mode::Integer);
                lemma_count_digits_step(source, k, Mode::Integer);
                if source[k] is GroupingSep {
                    // the same index: no digit between the two, so the
                    // separator stands ahead of the first
                    lemma_group_ahead(source, j, k);
                }
                assert(false);
            }
        }
    }
}

/// A grouping separator that stands ahead of a position: none of the tokens
/// between the two is a digit of the integer part.
pub(crate) proof fn lemma_group_found(tokens: Seq<Token>, j: int) -> (p: int)
    requires
        0 <= j < tokens.len(),
        group_ahead(tokens.skip(j + 1)),
    ensures
        j < p < tokens.len(),
        tokens[p] is GroupingSep,
        count_digits(tokens.subrange(j + 1, p), Mode::Integer) == 0,
    decreases tokens.len() - j,
{
    let tail = tokens.skip(j + 1);
    assert(tail[0] == tokens[j + 1]);
    if tokens[j + 1] is GroupingSep {
        assert(tokens.subrange(j + 1, j + 1) =~= Seq::<Token>::empty());
        j + 1
    } else {
        assert(tail.drop_first() =~= tokens.skip(j + 2));
        let p = lemma_group_found(tokens, j + 1);
        let between = tokens.subrange(j + 1, p);
        assert(between[0] == tokens[j + 1]);
        assert(between.drop_first() =~= tokens.subrange(j + 2, p));
        p
    }
}

/// Whether two tokens differ in nothing but the flag for the sign of the
/// number.
pub open spec fn alike(a: Token, b: Token) -> bool {
    match a {
        Token::Numeric(Mode::Integer, i, _) => b matches Token::Numeric(Mode::Integer, j, _) && i
            == j,
        Token::GroupingSep(i, _) => b matches Token::GroupingSep(j, _) && i == j,
        _ => a == b,
    }
}

/// Whether two runs of tokens differ in nothing but the flags for the sign
/// of the number.
pub open spec fn all_alike(a: Seq<Token>, b: Seq<Token>) -> bool {
    &&& a.len() == b.len()
    &&& forall|k: int| 0 <= k < a.len() ==> alike(#[trigger] a[k], b[k])
}

/// Reading does not look at the flags for the sign.
pub(crate) proof fn lemma_alike_read(
    a: Seq<Token>,
    b: Seq<Token>,
    text: Seq<char>,
    sym: Symbols,
    seen: Unmapped,
)
    requires
        all_alike(a, b),
    ensures
        unmap_tokens(a, text, sym, seen) == unmap_tokens(b, text, sym, seen),
    decreases a.len(),
{
    if a.len() > 0 && text.len() > 0 {
        assert(alike(a[0], b[0]));
        assert(all_alike(a.drop_first(), b.drop_first())) by {
            assert forall|k: int| 0 <= k < a.drop_first().len() implies alike(
                #[trigger] a.drop_first()[k],
                b.drop_first()[k],
            ) by {
                assert(alike(a[k + 1], b[k + 1]));
            }
        }
        assert(passes_over(a[0], sym) == passes_over(b[0], sym));
        assert(a[0] is Currency == b[0] is Currency);
        assert(read_glyph(a[0], text[0], sym) == read_glyph(b[0], text[0], sym));
        if passes_over(a[0], sym) {
            lemma_alike_read(a.drop_first(), b.drop_first(), text, sym, seen);
        } else if a[0] is Currency {
            lemma_alike_read(
                a.drop_first(),
                b.drop_first(),
                text.skip(sym.currency.len() as int),
                sym,
                seen,
            );
        } else {
            match read_glyph(a[0], text[0], sym) {
                Ok(read) => {
                    lemma_alike_read(
                        a.drop_first(),
                        b.drop_first(),
                        text.skip(1),
                        sym,
                        seen.with_read(read),
                    );
                },
                Err(_) => {},
            }
        }
    }
}

/// The compiled tokens and those with one place for the sign at each index
/// differ in nothing but the flags for the sign.
pub(crate) proof fn lemma_placed_alike(source: Seq<Token>, sym: Symbols)
    ensures
        all_alike(compiled(source, sym).tokens, placed(source, sym).tokens),
{
    let a = compiled(source, sym).tokens;
    let b = placed(source, sym).tokens;
    assert forall|k: int| 0 <= k < a.len() implies alike(#[trigger] a[k], b[k]) by {
        assert(a[k] == compiled_token(source, k, sym));
        assert(b[k] == placed_token(source, k, sym));
    }
}

/// Behind a token at the index of the sign, in a pattern without a sign of
/// its own, the compiled tokens hold a place for the sign exactly if the
/// symbols group and a grouping separator stands ahead.
pub(crate) proof fn lemma_places_behind(source: Seq<Token>, sym: Symbols, n: RawNumber, k: int)
    requires
        source.len() <= usize::MAX,
        0 <= k < source.len(),
        !holds_kind(source, Unique::Sign),
        sign_index(n, compiled(source, sym)) == count_digits(source.skip(k + 1), Mode::Integer),
    ensures
        uses_sign(compiled(source, sym).tokens.skip(k + 1), n, compiled(source, sym), sym) == (
        sym.decimal_grp is Some && group_ahead(source.skip(k + 1))),
{
    let f = compiled(source, sym);
    lemma_sign_places_from(f.tokens, k + 1, n, f, sym);
    lemma_count_digits_bound(source.skip(k + 1), Mode::Integer);
    if uses_sign(f.tokens.skip(k + 1), n, f, sym) {
        let j = choose|j: int|
            k + 1 <= j < f.tokens.len() && is_sign_place(#[trigger] f.tokens[j], n, f, sym);
        assert(f.tokens[j] == compiled_token(source, j, sym));
        lemma_count_digits_bound(source.skip(j + 1), Mode::Integer);
        lemma_digits_between(source, k, j, Mode::Integer);
        lemma_count_digits_step(source, j, Mode::Integer);
        assert(source[j] is GroupingSep);
        lemma_group_ahead(source, k, j);
    }
    if sym.decimal_grp is Some && group_ahead(source.skip(k + 1)) {
        let p = lemma_group_found(source, k);
        assert(f.tokens[p] == compiled_token(source, p, sym));
        lemma_count_digits_bound(source.skip(p + 1), Mode::Integer);
        lemma_digits_between(source, k, p, Mode::Integer);
        lemma_count_digits_step(source, p, Mode::Integer);
        assert(is_sign_place(f.tokens[p], n, f, sym));
    }
}

/// The flag of a token for the sign of the number.
pub open spec fn sign_flag(t: Token) -> bool {
    match t {
        Token::Numeric(Mode::Integer, _, can) => can,
        Token::GroupingSep(_, can) => can,
        _ => false,
    }
}

/// Whether the token `t` has the index `m` in the integer part.
pub open spec fn has_int_index(t: Token, m: nat) -> bool {
    match t {
        Token::Numeric(Mode::Integer, i, _) => i == m,
        Token::GroupingSep(i, _) => i == m,
        _ => false,
    }
}

/// Whether the patterns `f` and `g` are alike in all but their tokens.
pub open spec fn same_counts(f: FormatModel, g: FormatModel) -> bool {
    &&& f.min_int_sign == g.min_int_sign
    &&& f.len_int == g.len_int
    &&& f.has_exp == g.has_exp
    &&& f.has_exp_0 == g.has_exp_0
    &&& f.min_exp_sign == g.min_exp_sign
    &&& f.len_exp == g.len_exp
    &&& f.has_frac_0 == g.has_frac_0
    &&& f.len_frac == g.len_frac
}

/// Two tokens that are alike write the same if the flag of the second says
/// whether the first is the last place for the sign.
pub(crate) proof fn lemma_alike_text(
    a: Token,
    b: Token,
    n: RawNumber,
    f: FormatModel,
    g: FormatModel,
    sym: Symbols,
    exp: bool,
    last: bool,
)
    requires
        alike(a, b),
        same_counts(f, g),
        has_int_index(a, sign_index(n, f)) && sym.decimal_grp is Some ==> sign_flag(b) == (
        sign_flag(a) && last),
        has_int_index(a, sign_index(n, f)) && a is Numeric ==> sign_flag(b) == (sign_flag(a)
            && last),
    ensures
        token_text(a, n, f, sym, exp, last) == token_text(b, n, g, sym, exp, true),
        is_sign_place(b, n, g, sym) ==> is_sign_place(a, n, f, sym),
        is_sign_place(a, n, f, sym) && last ==> is_sign_place(b, n, g, sym),
{
    assert(sign_index(n, f) == sign_index(n, g));
    assert(exp_sign_index(n, f) == exp_sign_index(n, g));
    assert(exp_width(n, f) == exp_width(n, g));
    assert(exp_padding(n, f) == exp_padding(n, g));
}

/// The flag of a token of the pattern with one place for the sign at each
/// index says whether the compiled token is the last place for the sign.
pub(crate) proof fn lemma_last_place(source: Seq<Token>, sym: Symbols, n: RawNumber, k: int)
    requires
        source.len() <= usize::MAX,
        0 <= k < source.len(),
        has_int_index(compiled_token(source, k, sym), sign_index(n, compiled(source, sym))),
        sym.decimal_grp is Some || source[k] is Numeric,
    ensures
        sign_flag(placed_token(source, k, sym)) == (sign_flag(compiled_token(source, k, sym))
            && !uses_sign(
            compiled(source, sym).tokens.skip(k + 1),
            n,
            compiled(source, sym),
            sym,
        )),
{
    lemma_count_digits_bound(source.skip(k + 1), Mode::Integer);
    if k + 1 < source.len() {
        assert(source.skip(k + 1)[0] == source[k + 1]);
    }
    if !holds_kind(source, Unique::Sign) {
        lemma_places_behind(source, sym, n, k);
    }
}

/// The compiled pattern writes what the pattern with one place for the sign
/// at each index writes, and has a place for the sign where that one has:
/// of the places at the index of the sign the last writes it.
pub(crate) proof fn lemma_placed_text(
    source: Seq<Token>,
    sym: Symbols,
    n: RawNumber,
    exp: bool,
    k: int,
)
    requires
        source.len() <= usize::MAX,
        0 <= k <= source.len(),
    ensures
        render_text(compiled(source, sym).tokens.skip(k), n, compiled(source, sym), sym, exp)
            == flagged_text(placed(source, sym).tokens.skip(k), n, placed(source, sym), sym, exp),
        uses_sign(compiled(source, sym).tokens.skip(k), n, compiled(source, sym), sym)
            == uses_sign(placed(source, sym).tokens.skip(k), n, placed(source, sym), sym),
    decreases source.len() - k,
{
    let f = compiled(source, sym);
    let g = placed(source, sym);
    lemma_sign_places_from(f.tokens, k, n, f, sym);
    lemma_sign_places_from(g.tokens, k, n, g, sym);
    if k < source.len() {
        lemma_placed_text(source, sym, n, exp, k + 1);
        lemma_sign_places_from(f.tokens, k + 1, n, f, sym);
        lemma_sign_places_from(g.tokens, k + 1, n, g, sym);
        assert(f.tokens.skip(k).drop_first() =~= f.tokens.skip(k + 1));
        assert(g.tokens.skip(k).drop_first() =~= g.tokens.skip(k + 1));
        assert(f.tokens[k] == compiled_token(source, k, sym));
        assert(g.tokens[k] == placed_token(source, k, sym));
        let last = !uses_sign(f.tokens.skip(k + 1), n, f, sym);
        if has_int_index(f.tokens[k], sign_index(n, f)) && (sym.decimal_grp is Some
            || source[k] is Numeric) {
            lemma_last_place(source, sym, n, k);
        }
        lemma_alike_text(f.tokens[k], g.tokens[k], n, f, g, sym, exp, last);
    }
}

/// The decimal points that are given back do not depend on the flags for
/// the sign.
pub(crate) proof fn lemma_alike_points(
    a: Seq<Token>,
    b: Seq<Token>,
    n: RawNumber,
    f: FormatModel,
    g: FormatModel,
    sym: Symbols,
    exp: bool,
)
    requires
        all_alike(a, b),
        same_counts(f, g),
    ensures
        points(a, n, f, sym, exp) == points(b, n, g, sym, exp),
    decreases a.len(),
{
    if a.len() > 0 {
        assert(alike(a[0], b[0]));
        assert(all_alike(a.drop_first(), b.drop_first())) by {
            assert forall|k: int| 0 <= k < a.drop_first().len() implies alike(
                #[trigger] a.drop_first()[k],
                b.drop_first()[k],
            ) by {
                assert(alike(a[k + 1], b[k + 1]));
            }
        }
        lemma_alike_points(a.drop_first(), b.drop_first(), n, f, g, sym, exp);
    }
}

} // verus!
