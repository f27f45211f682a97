//! What holds of rendering and reading for every pattern and every number.

use vstd::prelude::*;
use crate::error::NumberFmtError;
use crate::model::{
    compile_tokens, compiled, compiled_token, count_digits, digit_index, first_repeat,
    holds_kind, is_compiled, is_digit_in, lemma_count_digits_bound, lemma_count_digits_split,
    lemma_count_digits_step, unique_kind, FormatModel, Unique,
};
use crate::raw::{split_raw, RawNumber};
use crate::render::{
    is_sign_place, lemma_sign_places_from, render_result, render_written, uses_sign,
    width_error, writes_exp_sign, writes_sign_at,
};
use crate::symbols::Symbols;
use crate::token::{Mode, Token};

verus! {

/// A number with more integer digits than the pattern is always refused with
/// `FmtLenInt`, and nothing of it is written.
pub proof fn lemma_width_rejection(raw: Seq<u8>, f: FormatModel, sym: Symbols, exp: bool)
    requires
        split_raw(raw).int.len() > f.len_int,
    ensures
        render_result(raw, f, sym, exp) == Err::<(), NumberFmtError>(NumberFmtError::FmtLenInt),
        render_written(raw, f, sym, exp) == Seq::<char>::empty(),
{
}

/// Whether the token `t` can hold the sign of the number: a sign token, or a
/// `#` of the integer part or a grouping separator whose flag is set.
pub open spec fn can_hold_sign(t: Token) -> bool {
    match t {
        Token::SignInt => true,
        Token::PlusInt => true,
        Token::Numeric(Mode::Integer, _, can) => can,
        Token::GroupingSep(_, can) => can,
        _ => false,
    }
}

/// A negative number is never rendered with success by a pattern none of
/// whose tokens can hold the sign: it is refused for its width, or else with
/// `FmtNoSign`.
pub proof fn lemma_sign_safety(raw: Seq<u8>, f: FormatModel, sym: Symbols, exp: bool)
    requires
        split_raw(raw).negative,
        forall|k: int| 0 <= k < f.tokens.len() ==> !can_hold_sign(#[trigger] f.tokens[k]),
    ensures
        render_result(raw, f, sym, exp) == Err::<(), NumberFmtError>(
            match width_error(split_raw(raw), f, exp) {
                Some(e) => e,
                None => NumberFmtError::FmtNoSign,
            },
        ),
{
    let n = split_raw(raw);
    if uses_sign(f.tokens, n, f, sym) {
        let k = choose|k: int|
            0 <= k < f.tokens.len() && is_sign_place(#[trigger] f.tokens[k], n, f, sym);
        assert(!can_hold_sign(f.tokens[k]));
    }
}

/// Whether `t` is a token that a `#` of the integer part or a grouping
/// separator could take the sign from or give it to: a sign token, a `#` of
/// the integer part or a grouping separator.
pub open spec fn may_hold_sign(t: Token) -> bool {
    match t {
        Token::SignInt => true,
        Token::PlusInt => true,
        Token::Numeric(Mode::Integer, _, _) => true,
        Token::GroupingSep(_, _) => true,
        _ => false,
    }
}

/// A negative number is never rendered with success by a pattern that was
/// compiled from tokens without a sign, a `#` in the integer part and a
/// grouping separator, such as `00.00`.
pub proof fn lemma_sign_safety_compiled(
    raw: Seq<u8>,
    source: Seq<Token>,
    compile_sym: Symbols,
    sym: Symbols,
    exp: bool,
)
    requires
        split_raw(raw).negative,
        compile_tokens(source, compile_sym) is Ok,
        forall|k: int| 0 <= k < source.len() ==> !may_hold_sign(#[trigger] source[k]),
    ensures
        render_result(raw, compile_tokens(source, compile_sym)->Ok_0, sym, exp) == Err::<
            (),
            NumberFmtError,
        >(
            match width_error(split_raw(raw), compile_tokens(source, compile_sym)->Ok_0, exp) {
                Some(e) => e,
                None => NumberFmtError::FmtNoSign,
            },
        ),
{
    let f = compile_tokens(source, compile_sym)->Ok_0;
    assert forall|k: int| 0 <= k < f.tokens.len() implies !can_hold_sign(
        #[trigger] f.tokens[k],
    ) by {
        assert(!may_hold_sign(source[k]));
        assert(f.tokens[k] == compiled_token(source, k, compile_sym));
    }
    lemma_sign_safety(raw, f, sym, exp);
}

/// The places for a sign that compiling marks: without a sign token in the
/// pattern every grouping separator may hold the sign of the number, and a
/// `#` of the integer part may unless the token directly right of it is a
/// grouping separator and the symbols group; with a sign token none of them
/// may. A `#` of the fraction never holds a sign, and a `#` of the exponent
/// may hold the sign of the exponent exactly if the pattern has no token
/// for that sign.
pub proof fn lemma_sign_flags(source: Seq<Token>, sym: Symbols, k: int)
    requires
        0 <= k < source.len(),
    ensures
        match compiled(source, sym).tokens[k] {
            Token::GroupingSep(_, can) => can == !holds_kind(source, Unique::Sign),
            Token::Numeric(Mode::Integer, _, can) => can == (!holds_kind(source, Unique::Sign) && !(
            sym.decimal_grp is Some && k + 1 < source.len() && source[k + 1] is GroupingSep)),
            Token::Numeric(Mode::Fraction, _, can) => !can,
            Token::Numeric(Mode::Exponent, _, can) => can == !holds_kind(source, Unique::ExpSign),
            _ => true,
        },
{
    assert(compiled(source, sym).tokens[k] == compiled_token(source, k, sym));
}

/// Whether at most one of `tokens` writes the sign of the number `n`.
pub open spec fn sign_written_once(
    tokens: Seq<Token>,
    n: RawNumber,
    f: FormatModel,
    sym: Symbols,
) -> bool {
    forall|j: int, k: int|
        0 <= j < k < tokens.len() ==> !(#[trigger] writes_sign_at(tokens, j, n, f, sym)
            && #[trigger] writes_sign_at(tokens, k, n, f, sym))
}

/// Whether at most one of `tokens` writes the sign of the exponent of `n`.
pub open spec fn exp_sign_written_once(
    tokens: Seq<Token>,
    n: RawNumber,
    f: FormatModel,
    exp: bool,
) -> bool {
    forall|j: int, k: int|
        0 <= j < k < tokens.len() ==> !(writes_exp_sign(#[trigger] tokens[j], n, f, exp)
            && writes_exp_sign(#[trigger] tokens[k], n, f, exp))
}

/// Tokens that compile hold at most one token of each kind that must not
/// repeat.
pub(crate) proof fn lemma_kinds_are_unique(tokens: Seq<Token>, j: int, k: int)
    requires
        first_repeat(tokens, 0) is None,
        0 <= j < k < tokens.len(),
        unique_kind(tokens[j]) is Some,
    ensures
        unique_kind(tokens[j]) != unique_kind(tokens[k]),
{
    lemma_no_repeat_from(tokens, 0, k);
    if unique_kind(tokens[j]) == unique_kind(tokens[k]) {
        assert(tokens.take(k)[j] == tokens[j]);
        assert(holds_kind(tokens.take(k), unique_kind(tokens[k])->0));
    }
}

/// Without a repetition from `from` on there is none from a later position
/// on, and the token at that position repeats nothing.
pub(crate) proof fn lemma_no_repeat_from(tokens: Seq<Token>, from: int, k: int)
    requires
        first_repeat(tokens, from) is None,
        0 <= from <= k < tokens.len(),
    ensures
        first_repeat(tokens, k) is None,
        !(unique_kind(tokens[k]) is Some && holds_kind(
            tokens.take(k),
            unique_kind(tokens[k])->0,
        )),
    decreases k - from,
{
    if from < k {
        lemma_no_repeat_from(tokens, from + 1, k);
    }
}

/// A digit of a part that stands before another position has a greater index
/// than the digits of that part from that position on can have: the digits
/// after position `j` are those between `j` and `k` and those from `k` on.
pub(crate) proof fn lemma_digits_between(tokens: Seq<Token>, j: int, k: int, mode: Mode)
    requires
        0 <= j < k <= tokens.len(),
    ensures
        count_digits(tokens.skip(j + 1), mode) == count_digits(
            tokens.subrange(j + 1, k),
            mode,
        ) + count_digits(tokens.skip(k), mode),
{
    let tail = tokens.skip(j + 1);
    lemma_count_digits_split(tail, k - j - 1, mode);
    assert(tail.take(k - j - 1) =~= tokens.subrange(j + 1, k));
    assert(tail.skip(k - j - 1) =~= tokens.skip(k));
}

/// A part of the tokens that holds a digit of a part of the number counts at
/// least one.
pub(crate) proof fn lemma_count_digits_holds(tokens: Seq<Token>, i: int, mode: Mode)
    requires
        0 <= i < tokens.len(),
        is_digit_in(tokens[i], mode),
    ensures
        count_digits(tokens, mode) >= 1,
{
    lemma_count_digits_split(tokens, i, mode);
    lemma_count_digits_step(tokens, i, mode);
}

/// The sign of the number is written at most once, whatever the pattern,
/// the number and the symbols: by the one sign token, or by the last of the
/// tokens that are a place for it.
pub proof fn lemma_sign_exclusive(
    source: Seq<Token>,
    compile_sym: Symbols,
    n: RawNumber,
    sym: Symbols,
)
    requires
        source.len() <= usize::MAX,
        compile_tokens(source, compile_sym) is Ok,
    ensures
        sign_written_once(
            compiled(source, compile_sym).tokens,
            n,
            compiled(source, compile_sym),
            sym,
        ),
{
    let f = compiled(source, compile_sym);
    assert forall|j: int, k: int| 0 <= j < k < f.tokens.len() implies !(#[trigger] writes_sign_at(
        f.tokens,
        j,
        n,
        f,
        sym,
    ) && #[trigger] writes_sign_at(f.tokens, k, n, f, sym)) by {
        if writes_sign_at(f.tokens, j, n, f, sym) && writes_sign_at(f.tokens, k, n, f, sym) {
            assert(f.tokens[j] == compiled_token(source, j, compile_sym));
            assert(f.tokens[k] == compiled_token(source, k, compile_sym));
            if holds_kind(source, Unique::Sign) {
                // only the sign tokens write, and there is one of them
                lemma_kinds_are_unique(source, j, k);
            } else {
                // a place comes after the first
                lemma_sign_places_from(f.tokens, j + 1, n, f, sym);
            }
        }
    }
}

/// The sign of the exponent is written at most once, whatever the pattern.
pub proof fn lemma_exp_sign_exclusive(
    source: Seq<Token>,
    compile_sym: Symbols,
    n: RawNumber,
    exp: bool,
)
    requires
        source.len() <= usize::MAX,
        compile_tokens(source, compile_sym) is Ok,
    ensures
        exp_sign_written_once(
            compiled(source, compile_sym).tokens,
            n,
            compiled(source, compile_sym),
            exp,
        ),
{
    let f = compiled(source, compile_sym);
    assert forall|j: int, k: int| 0 <= j < k < f.tokens.len() implies !(writes_exp_sign(
        #[trigger] f.tokens[j],
        n,
        f,
        exp,
    ) && writes_exp_sign(#[trigger] f.tokens[k], n, f, exp)) by {
        if writes_exp_sign(f.tokens[j], n, f, exp) && writes_exp_sign(f.tokens[k], n, f, exp) {
            assert(f.tokens[j] == compiled_token(source, j, compile_sym));
            assert(f.tokens[k] == compiled_token(source, k, compile_sym));
            if holds_kind(source, Unique::ExpSign) {
                lemma_kinds_are_unique(source, j, k);
            } else {
                lemma_count_digits_bound(source.skip(j + 1), Mode::Exponent);
                lemma_count_digits_bound(source.skip(k + 1), Mode::Exponent);
                lemma_digits_between(source, j, k, Mode::Exponent);
                lemma_count_digits_step(source, k, Mode::Exponent);
                assert(false);
            }
        }
    }
}

/// Within a part of the number, every digit of a compiled pattern has an
/// index of its own, and the indices are those below the number of digits.
pub proof fn lemma_indices_distinct(source: Seq<Token>, j: int, k: int, mode: Mode)
    requires
        source.len() <= usize::MAX,
        0 <= j < k < source.len(),
        is_digit_in(source[j], mode),
        is_digit_in(source[k], mode),
    ensures
        digit_index(source, j, mode) != digit_index(source, k, mode),
        digit_index(source, j, mode) < count_digits(source, mode),
        digit_index(source, k, mode) < count_digits(source, mode),
{
    lemma_count_digits_bound(source, mode);
    lemma_count_digits_split(source, j, mode);
    lemma_count_digits_split(source, k, mode);
    lemma_count_digits_split(source, j + 1, mode);
    lemma_count_digits_split(source, k + 1, mode);
    lemma_count_digits_step(source, j, mode);
    lemma_count_digits_step(source, k, mode);
    lemma_digits_between(source, j, k, mode);
    lemma_count_digits_bound(source.skip(j + 1), mode);
    lemma_count_digits_bound(source.skip(k + 1), mode);
    lemma_count_digits_bound(source.take(j), mode);
    lemma_count_digits_bound(source.take(k), mode);
    if mode == Mode::Fraction {
        assert(source.take(k).take(j + 1) =~= source.take(j + 1));
        lemma_count_digits_split(source.take(k), j + 1, mode);
    }
}

/// Sign exclusivity: rendering with a compiled pattern writes the sign of
/// the number at most once and the sign of the exponent at most once,
/// whatever the number and the symbols.
pub proof fn lemma_signs_written_once(f: FormatModel, n: RawNumber, sym: Symbols, exp: bool)
    requires
        is_compiled(f),
    ensures
        sign_written_once(f.tokens, n, f, sym),
        exp_sign_written_once(f.tokens, n, f, exp),
{
    let source = choose|source: Seq<Token>|
        source.len() <= usize::MAX && #[trigger] compile_tokens(source, f.sym) == Ok::<
            FormatModel,
            NumberFmtError,
        >(f);
    lemma_sign_exclusive(source, f.sym, n, sym);
    lemma_exp_sign_exclusive(source, f.sym, n, exp);
}

} // verus!
